use scalib_bp::kernels::{
    align_from_log, align_to_log, binary_output, check_log_table, exchange_along, unary_index_map, FuncType,
};
use scalib_bp::group::gen_log_table;
use scalib_bp::kernels::{select_kernel, Kernel};

#[test]
fn unary_maps_of_constants() {
    assert_eq!(unary_index_map(&FuncType::ADDCST(vec![1]), 0, 4), vec![1, 2, 3, 0]);
    assert_eq!(unary_index_map(&FuncType::XORCST(vec![0, 3]), 1, 4), vec![3, 2, 1, 0]);
    assert_eq!(unary_index_map(&FuncType::ANDCST(vec![2]), 0, 4), vec![0, 0, 2, 2]);
    assert_eq!(unary_index_map(&FuncType::MULCST(vec![2]), 0, 5), vec![0, 2, 4, 1, 3]);
    assert_eq!(unary_index_map(&FuncType::LOOKUP(vec![2, 0, 3, 1]), 0, 4), vec![2, 0, 3, 1]);
}

#[test]
fn add_constant_wraps_without_overflow() {
    let big = u32::MAX;
    assert_eq!(unary_index_map(&FuncType::ADDCST(vec![big]), 0, 7), vec![3, 4, 5, 6, 0, 1, 2]);
    assert_eq!(unary_index_map(&FuncType::MULCST(vec![big]), 0, 7)[6], ((6u64 * big as u64) % 7) as usize);
}

#[test]
fn binary_outputs() {
    assert_eq!(binary_output(&FuncType::AND, 6, 3, 8), 2);
    assert_eq!(binary_output(&FuncType::AND, 5, 5, 8), 5);
    assert_eq!(binary_output(&FuncType::MUL, 3, 4, 5), 2);
    assert_eq!(binary_output(&FuncType::MUL, 0, 4, 5), 0);
}

#[test]
fn lookup_identity_keeps_messages_exchanged() {
    let map = unary_index_map(&FuncType::LOOKUP(vec![0, 1, 2, 3]), 0, 4);
    let mut input = vec![0.1, 0.2, 0.3, 0.4];
    let mut output = vec![0.4, 0.3, 0.2, 0.1];
    exchange_along(&mut input, &mut output, &map);
    assert_eq!(input, vec![0.4, 0.3, 0.2, 0.1]);
    assert_eq!(output, vec![0.1, 0.2, 0.3, 0.4]);
}

#[test]
fn lookup_identity_equal_messages_stay_equal() {
    let map = unary_index_map(&FuncType::LOOKUP(vec![0, 1, 2, 3]), 0, 4);
    let mut input = vec![0.25, 0.25, 0.25, 0.25];
    let mut output = vec![0.25, 0.25, 0.25, 0.25];
    exchange_along(&mut input, &mut output, &map);
    assert_eq!(input, output);
}

#[test]
fn add_constant_one_shifts_messages() {
    let map = unary_index_map(&FuncType::ADDCST(vec![1]), 0, 4);
    let old_input = vec![1.0, 0.0, 0.0, 0.0];
    let old_output = vec![0.25, 0.25, 0.25, 0.25];
    let mut input = old_input.clone();
    let mut output = old_output.clone();
    exchange_along(&mut input, &mut output, &map);
    for i1 in 0..4 {
        assert_eq!(input[i1], old_output[(i1 + 1) % 4]);
    }
    for o in 0..4 {
        assert_eq!(output[o], old_input[(o + 3) % 4]);
    }
    assert_eq!(output, vec![0.0, 1.0, 0.0, 0.0]);
}

#[test]
fn exchange_on_integers() {
    let mut input = vec![10u32, 11, 12];
    let mut output = vec![20u32, 21, 22];
    exchange_along(&mut input, &mut output, &vec![2, 0, 1]);
    assert_eq!(input, vec![22, 20, 21]);
    assert_eq!(output, vec![11, 12, 10]);
}

#[test]
fn log_table_checks() {
    assert!(check_log_table(&gen_log_table(7), 7));
    assert!(check_log_table(&vec![1, 2, 4, 3], 5));
    assert!(!check_log_table(&vec![1, 2, 2, 3], 5));
    assert!(!check_log_table(&vec![0, 1, 2, 3], 5));
    assert!(!check_log_table(&vec![1, 2, 3], 5));
    assert!(!check_log_table(&vec![1, 2, 3, 5], 5));
}

#[test]
fn log_alignment_round_trip() {
    let table = gen_log_table(7);
    let original = vec![0.5, 0.1, 0.2, 0.3, 0.4, 0.6, 0.7];
    let mut row = original.clone();
    align_to_log(&mut row, &table);
    assert_eq!(row, vec![0.5, 0.1, 0.3, 0.2, 0.7, 0.4, 0.6]);
    align_from_log(&mut row, &table);
    assert_eq!(row, original);
}

#[test]
fn log_alignment_turns_products_into_sums() {
    // 3 * 5 = 1 mod 7; log 3 = 1 and log 5 = 5, and 1 + 5 = 0 mod 6.
    let table = gen_log_table(7);
    let mut row: Vec<usize> = (0..7).collect();
    align_to_log(&mut row, &table);
    assert_eq!(row[1 + 1], 3);
    assert_eq!(row[5 + 1], 5);
    assert_eq!(row[0 + 1], 1);
}

#[test]
fn kernel_selection() {
    assert!(matches!(select_kernel(&FuncType::MUL, 5), Kernel::LogFourier));
    assert!(matches!(select_kernel(&FuncType::MUL, 257), Kernel::LogFourier));
    assert!(matches!(select_kernel(&FuncType::MUL, 4), Kernel::Naive));
    assert!(matches!(select_kernel(&FuncType::MUL, 3), Kernel::Naive));
    assert!(matches!(select_kernel(&FuncType::MUL, 65537), Kernel::Naive));
    assert!(matches!(select_kernel(&FuncType::AND, 5), Kernel::Naive));
    assert!(matches!(select_kernel(&FuncType::XOR, 4), Kernel::Walsh));
    assert!(matches!(select_kernel(&FuncType::ADD, 5), Kernel::Fourier));
    assert!(matches!(select_kernel(&FuncType::ANDCST(vec![1]), 4), Kernel::Constant));
    assert!(matches!(select_kernel(&FuncType::LOOKUP(vec![0, 1]), 2), Kernel::Lookup));
}
