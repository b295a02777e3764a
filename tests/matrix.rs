use concurrency::{
    assemble, dispatch_plan, dot_product, multiply, process, worker_for, MathError, Matrix,
    MsgOutput, Vector,
};

#[test]
fn test_multiply() {
    let a = Matrix::new(2, 3).with_data(vec![1, 2, 3, 4, 5, 6]);
    let b = Matrix::new(3, 2).with_data(vec![7, 8, 9, 10, 11, 12]);
    let c = multiply(&a, &b).unwrap();
    let c2 = multiply(&a, &b).unwrap();
    assert_eq!(c.data(), c2.data());
    assert_eq!(c.to_string(), "{58 64, 139 154}");
}

#[test]
fn test_display() {
    let a = Matrix::new(2, 3).with_data(vec![1, 2, 3, 4, 5, 6]);
    assert_eq!(a.to_string(), "{1 2 3, 4 5 6}");
}

#[test]
fn test_multiply_error() {
    let a = Matrix::new(2, 3).with_data(vec![1, 2, 3, 4, 5, 6]);
    let b = Matrix::new(2, 2).with_data(vec![7, 8, 9, 10]);
    assert!(multiply(&a, &b).is_err());
}

#[test]
fn multiply_mismatch_is_dimension_error() {
    let a = Matrix::new(2, 3).with_data(vec![1, 2, 3, 4, 5, 6]);
    let b = Matrix::new(2, 2).with_data(vec![7, 8, 9, 10]);
    assert_eq!(multiply(&a, &b).err(), Some(MathError::DimensionMismatch));
    assert_eq!(dispatch_plan(&a, &b).err(), Some(MathError::DimensionMismatch));
}

#[test]
fn multiply_square_matches_textbook() {
    let a = Matrix::new(2, 2).with_data(vec![1, 2, 3, 4]);
    let b = Matrix::new(2, 2).with_data(vec![5, 6, 7, 8]);
    let c = multiply(&a, &b).unwrap();
    assert_eq!(c.data(), &vec![19, 22, 43, 50]);
    assert_eq!(c.rows(), 2);
    assert_eq!(c.cols(), 2);
}

#[test]
fn multiply_with_negatives_and_one_column() {
    let a = Matrix::new(3, 2).with_data(vec![1, -2, 0, 3, -4, 5]);
    let b = Matrix::new(2, 1).with_data(vec![6, -7]);
    let c = multiply(&a, &b).unwrap();
    assert_eq!(c.data(), &vec![20, -21, -59]);
    assert_eq!(c.to_string(), "{20, -21, -59}");
}

#[test]
fn new_matrix_is_zero_and_cells_are_row_major() {
    let mut m = Matrix::new(2, 3);
    assert_eq!(m.data(), &vec![0, 0, 0, 0, 0, 0]);
    m.set(1, 2, 9);
    m.set(0, 1, -3);
    assert_eq!(m.get(1, 2), 9);
    assert_eq!(m.get(0, 1), -3);
    assert_eq!(m.data(), &vec![0, -3, 0, 0, 0, 9]);
    assert_eq!(m.to_string(), "{0 -3 0, 0 0 9}");
}

#[test]
fn dot_product_of_equal_lengths() {
    let r = dot_product(Vector::from(vec![1, 2, 3]), Vector::from(vec![4, 5, 6]));
    assert_eq!(r, Ok(32));
}

#[test]
fn dot_product_of_empty_is_zero() {
    let r = dot_product(Vector::from(vec![]), Vector::from(vec![]));
    assert_eq!(r, Ok(0));
}

#[test]
fn dot_product_length_mismatch() {
    let r = dot_product(Vector::from(vec![1, 2, 3]), Vector::from(vec![4, 5]));
    assert_eq!(r, Err(MathError::DimensionMismatch));
}

#[test]
fn plan_lists_every_cell_in_row_major_order() {
    let a = Matrix::new(2, 3).with_data(vec![1, 2, 3, 4, 5, 6]);
    let b = Matrix::new(3, 2).with_data(vec![7, 8, 9, 10, 11, 12]);
    let plan = dispatch_plan(&a, &b).unwrap();
    assert_eq!(plan.len(), 4);
    assert_eq!(plan[3].idx, 3);
    assert_eq!(plan[3].row.data, vec![4, 5, 6]);
    assert_eq!(plan[3].col.data, vec![8, 10, 12]);
    assert_eq!(plan[1].row.data, vec![1, 2, 3]);
    assert_eq!(plan[1].col.data, vec![8, 10, 12]);
}

#[test]
fn worker_step_tags_its_reply() {
    let a = Matrix::new(2, 3).with_data(vec![1, 2, 3, 4, 5, 6]);
    let b = Matrix::new(3, 2).with_data(vec![7, 8, 9, 10, 11, 12]);
    let mut plan = dispatch_plan(&a, &b).unwrap();
    let item = plan.remove(2);
    assert_eq!(process(item), MsgOutput { idx: 2, val: 139 });
}

#[test]
fn worker_assignment_is_index_modulo_count() {
    assert_eq!(worker_for(10, 4), 2);
    assert_eq!(worker_for(3, 1), 0);
    assert_eq!(worker_for(7, 8), 7);
}

#[test]
fn assembly_ignores_arrival_order() {
    let forward = vec![
        MsgOutput { idx: 0, val: 58 },
        MsgOutput { idx: 1, val: 64 },
        MsgOutput { idx: 2, val: 139 },
        MsgOutput { idx: 3, val: 154 },
    ];
    let mut reversed = forward.clone();
    reversed.reverse();
    let m1 = assemble(2, 2, &forward);
    let m2 = assemble(2, 2, &reversed);
    assert_eq!(m1.data(), &vec![58, 64, 139, 154]);
    assert_eq!(m1.data(), m2.data());
    assert_eq!(m2.to_string(), "{58 64, 139 154}");
}

#[test]
fn assembly_leaves_unnamed_cells_zero() {
    let m = assemble(1, 3, &vec![MsgOutput { idx: 1, val: 5 }]);
    assert_eq!(m.data(), &vec![0, 5, 0]);
}

fn gather_by_workers(a: &Matrix, b: &Matrix, workers: usize) -> Matrix {
    let plan = dispatch_plan(a, b).unwrap();
    let mut queues: Vec<Vec<concurrency::MsgInput>> = (0..workers).map(|_| Vec::new()).collect();
    for item in plan {
        let w = worker_for(item.idx, workers);
        queues[w].push(item);
    }
    let mut replies = Vec::new();
    for queue in queues.into_iter().rev() {
        for item in queue {
            replies.push(process(item));
        }
    }
    assemble(a.rows(), b.cols(), &replies)
}

#[test]
fn result_does_not_depend_on_worker_count() {
    let a = Matrix::new(3, 3).with_data(vec![1, 2, 3, 4, 5, 6, 7, 8, 9]);
    let b = Matrix::new(3, 3).with_data(vec![9, 8, 7, 6, 5, 4, 3, 2, 1]);
    let one = gather_by_workers(&a, &b, 1);
    let eight = gather_by_workers(&a, &b, 8);
    assert_eq!(one.data(), eight.data());
    assert_eq!(one.data(), multiply(&a, &b).unwrap().data());
    assert_eq!(one.data(), &vec![30, 24, 18, 84, 69, 54, 138, 114, 90]);
}
