use rand::SeedableRng;
use sfwsvm::genetics::{crossover, diff, DiffTy, Gene};
use sfwsvm::svm::{SvmInstruction, SvmInstructionTy};

fn convenient_diff(a: &[u64], b: &[u64], expected: &[(DiffTy, Vec<u64>)]) {
    let ins = SvmInstruction { ty: SvmInstructionTy::Xor, dest: 0, src: 0 };
    let av: Vec<Gene> = a.iter().map(|n| Gene { order: *n, ins }).collect();
    let bv: Vec<Gene> = b.iter().map(|n| Gene { order: *n, ins }).collect();
    let res = diff(&av, &bv);
    let nums: Vec<(DiffTy, Vec<u64>)> = res
        .iter()
        .map(|g| (g.ty, g.block.iter().map(|n| n.order).collect::<Vec<u64>>()))
        .collect();
    assert_eq!(nums.as_slice(), expected);
}

#[test]
fn both_empty() {
    convenient_diff(&[], &[], &[]);
}

#[test]
fn a_only() {
    convenient_diff(&[0, 1], &[], &[(DiffTy::A, vec![0, 1])]);
}

#[test]
fn b_only() {
    convenient_diff(&[], &[0, 1], &[(DiffTy::B, vec![0, 1])]);
}

#[test]
fn mix_1() {
    convenient_diff(
        &[0, 2],
        &[1],
        &[(DiffTy::A, vec![0]), (DiffTy::B, vec![1]), (DiffTy::A, vec![2])],
    );
}

#[test]
fn mix_2() {
    convenient_diff(
        &[0, 1, 2, 3, 4, 6, 7],
        &[0, 1, 4, 5],
        &[
            (DiffTy::Both, vec![0, 1]),
            (DiffTy::A, vec![2, 3]),
            (DiffTy::Both, vec![4]),
            (DiffTy::B, vec![5]),
            (DiffTy::A, vec![6, 7]),
        ],
    );
}

fn gene(order: u64, dest: u8) -> Gene {
    Gene {
        order,
        ins: SvmInstruction { ty: SvmInstructionTy::Mov, dest, src: 1 },
    }
}

#[test]
fn diff_of_sequence_with_itself_is_one_both_block() {
    let a: Vec<Gene> = (0..5).map(|n| gene(n * 10, n as u8)).collect();
    let res = diff(&a, &a);
    assert_eq!(res.len(), 1);
    assert_eq!(res[0].ty, DiffTy::Both);
    assert_eq!(res[0].block, a);
}

#[test]
fn diff_against_empty_is_one_a_block() {
    let a: Vec<Gene> = (0..4).map(|n| gene(n * 7, n as u8)).collect();
    let empty: Vec<Gene> = Vec::new();
    let res = diff(&a, &empty);
    assert_eq!(res.len(), 1);
    assert_eq!(res[0].ty, DiffTy::A);
    assert_eq!(res[0].block, a);
}

#[test]
fn diff_replay_reproduces_sorted_merge() {
    let a: Vec<Gene> = [0u64, 3, 5, 9].iter().map(|n| gene(*n, 0)).collect();
    let b: Vec<Gene> = [1u64, 3, 6].iter().map(|n| gene(*n, 0)).collect();
    let res = diff(&a, &b);
    let replay: Vec<Gene> = res.iter().flat_map(|blk| blk.block.iter().copied()).collect();
    let orders: Vec<u64> = replay.iter().map(|g| g.order).collect();
    // A stable merge of the two sorted inputs, equal heads emitted once.
    assert_eq!(orders, vec![0, 1, 3, 5, 6, 9]);
}

#[test]
fn crossover_of_identical_parents_copies_the_parent() {
    let mut rng = rand::rngs::StdRng::seed_from_u64(7);
    let a: Vec<Gene> = (0..6).map(|n| gene(n * 3, n as u8)).collect();
    let child = crossover(&mut rng, &a, &a);
    // One Both block, which is always kept in full.
    assert_eq!(child, a);
}

#[test]
fn crossover_child_of_sorted_parents_is_sorted() {
    let mut rng = rand::rngs::StdRng::seed_from_u64(99);
    let a: Vec<Gene> = [0u64, 4, 8, 12, 16].iter().map(|n| gene(*n, 0)).collect();
    let b: Vec<Gene> = [2u64, 4, 10, 16, 20].iter().map(|n| gene(*n, 1)).collect();
    for _ in 0..20 {
        let child = crossover(&mut rng, &a, &b);
        for w in child.windows(2) {
            assert!(w[0].order <= w[1].order);
        }
        assert!(child.len() <= a.len() + b.len());
    }
}
