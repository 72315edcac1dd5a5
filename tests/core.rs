use einsum_bench::bench::{
    parse_dtype, percent_of, prepare_instance, report_layout, Dtype, Harness, HarnessStep,
    InstanceError, ReportLine, Strategy,
};
use einsum_bench::labels::{find_arrow, parse_format_string};
use einsum_bench::perm::{canonical_perms, permute_labels};
use einsum_bench::stats::{median_and_iqr, sort_samples};
use einsum_bench::tree::{build_contraction_tree, check_path, ContractionTree};

fn chars(s: &str) -> Vec<char> {
    s.chars().collect()
}

fn leaf_indices(t: &ContractionTree, out: &mut Vec<usize>) {
    match t {
        ContractionTree::Leaf { tensor_index, .. } => out.push(*tensor_index),
        ContractionTree::Contract { left, right } => {
            leaf_indices(left, out);
            leaf_indices(right, out);
        }
    }
}

fn internal_nodes(t: &ContractionTree) -> usize {
    match t {
        ContractionTree::Leaf { .. } => 0,
        ContractionTree::Contract { left, right } => 1 + internal_nodes(left) + internal_nodes(right),
    }
}

fn is_leaf(t: &ContractionTree, index: usize, ids: &str) -> bool {
    match t {
        ContractionTree::Leaf { ids: l, tensor_index } => *tensor_index == index && *l == chars(ids),
        _ => false,
    }
}

#[test]
fn parse_three_operands() {
    let (inputs, output) = parse_format_string("ba,dca,feb->ki");
    assert_eq!(inputs, vec![vec!['b', 'a'], vec!['d', 'c', 'a'], vec!['f', 'e', 'b']]);
    assert_eq!(output, vec!['k', 'i']);
}

#[test]
fn parse_empty_output_is_scalar() {
    let (inputs, output) = parse_format_string("ab,ab->");
    assert_eq!(inputs, vec![chars("ab"), chars("ab")]);
    assert!(output.is_empty());
}

#[test]
fn parse_splits_at_first_arrow() {
    let (inputs, output) = parse_format_string("a,b->c->d");
    assert_eq!(inputs, vec![chars("a"), chars("b")]);
    assert_eq!(output, chars("c->d"));
}

#[test]
fn find_arrow_absent() {
    assert_eq!(find_arrow(&chars("ab,bc-c")), None);
    assert_eq!(find_arrow(&chars("ab-->c")), Some(3));
}

#[test]
fn tree_three_operand_scenario() {
    let (inputs, _) = parse_format_string("ba,dca,feb->ki");
    let path = [[1usize, 2], [0, 1]];
    let tree = build_contraction_tree(&inputs, &path);
    match &tree {
        ContractionTree::Contract { left, right } => {
            assert!(is_leaf(left, 0, "ba"));
            match right.as_ref() {
                ContractionTree::Contract { left: l2, right: r2 } => {
                    assert!(is_leaf(l2, 1, "dca"));
                    assert!(is_leaf(r2, 2, "feb"));
                }
                _ => panic!("right child should be a contraction"),
            }
        }
        _ => panic!("root should be a contraction"),
    }
    assert_eq!(internal_nodes(&tree), 2);
}

#[test]
fn tree_order_follows_removal_convention() {
    // (0,1) then (0,k): the second step pairs operand 2 with the first result.
    let inputs = vec![chars("a"), chars("b"), chars("c"), chars("d")];
    let path = [[1usize, 0], [0, 2], [0, 1]];
    let tree = build_contraction_tree(&inputs, &path);
    let mut leaves = Vec::new();
    leaf_indices(&tree, &mut leaves);
    assert_eq!(leaves, vec![3, 2, 0, 1]);
    assert_eq!(internal_nodes(&tree), 3);
}

#[test]
fn tree_leaves_are_permutation() {
    let inputs: Vec<Vec<char>> = (0..6).map(|i| vec![(b'a' + i as u8) as char]).collect();
    let path = [[4usize, 2], [0, 3], [1, 0], [2, 1], [0, 1]];
    assert!(check_path(6, &path));
    let tree = build_contraction_tree(&inputs, &path);
    let mut leaves = Vec::new();
    leaf_indices(&tree, &mut leaves);
    let mut sorted = leaves.clone();
    sorted.sort();
    assert_eq!(sorted, vec![0, 1, 2, 3, 4, 5]);
    assert_eq!(internal_nodes(&tree), 5);
}

#[test]
fn single_operand_is_leaf() {
    let tree = build_contraction_tree(&[chars("ij")], &[]);
    assert!(is_leaf(&tree, 0, "ij"));
}

#[test]
fn check_path_rejects_wrong_lengths() {
    assert!(check_path(3, &[[1, 2], [0, 1]]));
    assert!(!check_path(3, &[[1, 2]]));
    assert!(!check_path(3, &[[1, 2], [0, 1], [0, 1]]));
    assert!(!check_path(3, &[[1, 3], [0, 1]]));
    assert!(check_path(2, &[[0, 0]]));
    assert!(!check_path(2, &[[1, 1]]));
}

#[test]
fn canonical_perms_reproduce_engine_order() {
    let ia = chars("caxydefghizjb");
    let ib = chars("hklicxmnopdqfrstyjuzgvwe");
    let ic = chars("abklwmnopqrstuvxyz");
    let (left, right) = canonical_perms(&ia, &ib, &ic).unwrap();
    assert_eq!(left, vec![1, 12, 0, 4, 5, 6, 7, 8, 9, 11, 2, 3, 10]);
    assert_eq!(
        right,
        vec![4, 10, 23, 12, 20, 0, 3, 17, 1, 2, 6, 7, 8, 9, 11, 13, 14, 15, 18, 21, 22, 5, 16, 19]
    );
}

#[test]
fn canonical_perms_matmul() {
    let (left, right) = canonical_perms(&chars("ij"), &chars("jk"), &chars("ik")).unwrap();
    assert_eq!(left, vec![0, 1]);
    assert_eq!(right, vec![0, 1]);
    let (left, right) = canonical_perms(&chars("jbi"), &chars("kjb"), &chars("bik")).unwrap();
    assert_eq!(left, vec![2, 0, 1]);
    assert_eq!(right, vec![1, 0, 2]);
}

#[test]
fn canonical_perms_reject_malformed() {
    assert_eq!(canonical_perms(&chars("ii"), &chars("i"), &chars("")), None);
    assert_eq!(canonical_perms(&chars("ij"), &chars("j"), &chars("iz")), None);
    assert_eq!(canonical_perms(&chars("ijt"), &chars("j"), &chars("i")), None);
}

#[test]
fn permute_labels_follows_perm() {
    let labels = chars("caxydefghizjb");
    let perm = vec![1, 12, 0, 4, 5, 6, 7, 8, 9, 11, 2, 3, 10];
    assert_eq!(permute_labels(&labels, &perm), chars("abcdefghijxyz"));
}

#[test]
fn median_and_iqr_by_rank() {
    assert_eq!(median_and_iqr(vec![50, 10, 40, 20, 30]), (30, 20));
    assert_eq!(median_and_iqr(vec![7]), (7, 0));
    assert_eq!(median_and_iqr(vec![4, 1, 3, 2]), (3, 2));
}

#[test]
fn quartiles_ordered_on_samples() {
    let samples = vec![9u64, 3, 7, 7, 1, 12, 5, 3];
    let mut sorted = samples.clone();
    sort_samples(&mut sorted);
    assert_eq!(sorted, vec![1, 3, 3, 5, 7, 7, 9, 12]);
    let n = sorted.len();
    assert!(sorted[n / 4] <= sorted[n / 2] && sorted[n / 2] <= sorted[3 * n / 4]);
    assert_eq!(median_and_iqr(samples), (7, 6));
}

#[test]
fn harness_warms_up_then_measures() {
    let mut h = Harness::new(2, 3);
    let mut steps = Vec::new();
    let mut t: u64 = 100;
    loop {
        let s = h.next_step();
        steps.push(s);
        if s == HarnessStep::Finished {
            break;
        }
        h.record(t);
        t -= 10;
    }
    assert_eq!(
        steps,
        vec![
            HarnessStep::Warmup,
            HarnessStep::Warmup,
            HarnessStep::Measure,
            HarnessStep::Measure,
            HarnessStep::Measure,
            HarnessStep::Finished
        ]
    );
    assert_eq!(h.samples, vec![80, 70, 60]);
    assert_eq!(h.summary(), Some((70, 20)));
    assert_eq!(Harness::new(0, 0).summary(), None);
}

#[test]
fn report_rows_two_per_instance() {
    let lines = report_layout(3);
    assert_eq!(lines.len(), 8);
    let rows = lines.iter().filter(|l| matches!(l, ReportLine::Row(..))).count();
    assert_eq!(rows, 6);
    assert_eq!(lines[0], ReportLine::Heading(Strategy::OptFlops));
    assert_eq!(lines[3], ReportLine::Row(Strategy::OptFlops, 2));
    assert_eq!(lines[4], ReportLine::Heading(Strategy::OptSize));
    assert_eq!(lines[5], ReportLine::Row(Strategy::OptSize, 0));
    assert_eq!(Strategy::OptFlops.name(), "opt_flops");
    assert_eq!(Strategy::OptSize.name(), "opt_size");
    assert_eq!(report_layout(0).len(), 2);
}

#[test]
fn dtype_names() {
    assert_eq!(parse_dtype("float64"), Some(Dtype::Float64));
    assert_eq!(parse_dtype("complex128"), Some(Dtype::Complex128));
    assert_eq!(parse_dtype("float32"), None);
    assert_eq!(parse_dtype(""), None);
}

#[test]
fn prepare_instance_errors() {
    assert_eq!(prepare_instance("ab,bc", 2, &[[0, 1]]).err(), Some(InstanceError::MissingArrow));
    assert_eq!(
        prepare_instance("ab,bc->ac", 3, &[[0, 1]]).err(),
        Some(InstanceError::TensorCountMismatch { parsed: 2, declared: 3 })
    );
    assert_eq!(prepare_instance("ab,bc->ac", 2, &[]).err(), Some(InstanceError::BadPath));
    let plan = prepare_instance("ab,bc->ac", 2, &[[0, 1]]).ok().unwrap();
    assert_eq!(plan.output_ids, chars("ac"));
    assert_eq!(internal_nodes(&plan.root), 1);
}

#[test]
fn percent_rounds_down() {
    assert_eq!(percent_of(1, 3), Some(33));
    assert_eq!(percent_of(250, 100), Some(250));
    assert_eq!(percent_of(5, 0), None);
}
