use scalib_bp::kernels::{Func, FuncType};
use scalib_bp::moments::{binomial_row, check_labels, update_coefficients};
use scalib_bp::topology::{check_bijection, check_function, check_graph, edge_owners, BpError};

#[test]
fn owners_of_well_formed_lists() {
    let lists = vec![vec![2, 0], vec![1]];
    let owners = edge_owners(&lists, 3).ok().unwrap();
    assert_eq!(owners, vec![(0, 1), (1, 0), (0, 0)]);
}

#[test]
fn owners_reject_bad_lists() {
    assert!(matches!(edge_owners(&vec![vec![0, 3]], 3), Err(BpError::TopologyError)));
    assert!(matches!(edge_owners(&vec![vec![0, 1], vec![1, 2]], 3), Err(BpError::TopologyError)));
    assert!(matches!(edge_owners(&vec![vec![0], vec![2]], 3), Err(BpError::TopologyError)));
    assert!(edge_owners(&vec![], 0).is_ok());
}

#[test]
fn bijection_check() {
    assert!(check_bijection(&vec![1, 0, 2], 3));
    assert!(!check_bijection(&vec![1, 1, 2], 3));
    assert!(!check_bijection(&vec![1, 0, 3], 3));
    assert!(!check_bijection(&vec![1, 0], 3));
}

#[test]
fn function_arity_and_payload() {
    let ok = Func { neighboors: vec![0, 1, 2], functype: FuncType::AND };
    assert!(check_function(&ok, 4, 2).is_ok());
    let bad_arity = Func { neighboors: vec![0, 1], functype: FuncType::MUL };
    assert!(matches!(check_function(&bad_arity, 5, 1), Err(BpError::TopologyError)));
    let xor_one = Func { neighboors: vec![0], functype: FuncType::XOR };
    assert!(matches!(check_function(&xor_one, 4, 1), Err(BpError::TopologyError)));
    let xor_three = Func { neighboors: vec![0, 1, 2], functype: FuncType::XOR };
    assert!(check_function(&xor_three, 4, 1).is_ok());
    let not_perm = Func { neighboors: vec![0, 1], functype: FuncType::LOOKUP(vec![0, 0, 1, 2]) };
    assert!(matches!(check_function(&not_perm, 4, 1), Err(BpError::PreconditionViolation)));
    let short_table = Func { neighboors: vec![0, 1], functype: FuncType::LOOKUP(vec![0, 1, 2]) };
    assert!(matches!(check_function(&short_table, 4, 1), Err(BpError::PreconditionViolation)));
    let wrong_runs = Func { neighboors: vec![0, 1], functype: FuncType::ADDCST(vec![1]) };
    assert!(matches!(check_function(&wrong_runs, 4, 2), Err(BpError::PreconditionViolation)));
    let xor_out = Func { neighboors: vec![0, 1], functype: FuncType::XORCST(vec![1, 4]) };
    assert!(matches!(check_function(&xor_out, 4, 2), Err(BpError::PreconditionViolation)));
    let xor_in = Func { neighboors: vec![0, 1], functype: FuncType::XORCST(vec![1, 3]) };
    assert!(check_function(&xor_in, 4, 2).is_ok());
}

#[test]
fn graph_with_one_xor_constant() {
    let functions = vec![Func { neighboors: vec![0, 1], functype: FuncType::XORCST(vec![1]) }];
    let variables = vec![vec![0], vec![1]];
    let owners = check_graph(&functions, &variables, 2, 4, 1).ok().unwrap();
    assert_eq!(owners.by_function, vec![(0, 0), (0, 1)]);
    assert_eq!(owners.by_variable, vec![(0, 0), (1, 0)]);
}

#[test]
fn graph_errors() {
    let functions = vec![Func { neighboors: vec![0, 1], functype: FuncType::XORCST(vec![1]) }];
    assert!(matches!(check_graph(&functions, &vec![vec![0], vec![1]], 2, 0, 1), Err(BpError::ShapeMismatch)));
    assert!(matches!(check_graph(&functions, &vec![vec![0, 1], vec![1]], 2, 4, 1), Err(BpError::TopologyError)));
    assert!(matches!(check_graph(&functions, &vec![vec![0]], 2, 4, 1), Err(BpError::TopologyError)));
    assert!(matches!(check_graph(&functions, &vec![vec![0], vec![1]], 3, 4, 1), Err(BpError::TopologyError)));
    assert!(matches!(check_graph(&functions, &vec![vec![0], vec![1]], 2, 4, 2), Err(BpError::PreconditionViolation)));
}

#[test]
fn pascal_rows() {
    assert_eq!(binomial_row(0), vec![1]);
    assert_eq!(binomial_row(4), vec![1, 4, 6, 4, 1]);
    assert_eq!(binomial_row(6), vec![1, 6, 15, 20, 15, 6, 1]);
    assert_eq!(binomial_row(63)[31], 916312070471295267);
}

#[test]
fn coefficients_of_the_update_rule() {
    assert_eq!(update_coefficients(0), vec![]);
    assert_eq!(update_coefficients(1), vec![(2, vec![])]);
    assert_eq!(update_coefficients(2), vec![(4, vec![(4, 1), (6, 2)]), (3, vec![(3, 1)]), (2, vec![])]);
}

#[test]
fn labels() {
    assert!(check_labels(&vec![0, 1, 1, 0]).is_ok());
    assert!(check_labels(&vec![]).is_ok());
    assert!(matches!(check_labels(&vec![0, 2]), Err(BpError::InvalidLabel)));
}
