use biwac::structure::{
    blocks_in, check_branch_depths, structure, BasicBlock, Structured, TerminatorKind,
};
use std::collections::HashSet;

fn goto(n: u32) -> TerminatorKind {
    TerminatorKind::Goto { target: BasicBlock::new(n) }
}

/// `f` when false, `t` when true: the shape of a lowered `if`.
fn branch(t: u32, f: u32) -> TerminatorKind {
    TerminatorKind::SwitchInt { arms: vec![(0, BasicBlock::new(f))], otherwise: BasicBlock::new(t) }
}

fn bb(n: u32) -> BasicBlock {
    BasicBlock::new(n)
}

fn successors(t: &TerminatorKind) -> Vec<BasicBlock> {
    match t {
        TerminatorKind::Return | TerminatorKind::Unreachable => vec![],
        TerminatorKind::Goto { target } | TerminatorKind::Call { target } => vec![*target],
        TerminatorKind::SwitchInt { arms, otherwise } => {
            let mut v: Vec<BasicBlock> = arms.iter().map(|a| a.1).collect();
            v.push(*otherwise);
            v
        }
    }
}

fn reachable(body: &[TerminatorKind]) -> HashSet<BasicBlock> {
    let mut seen = HashSet::from([bb(0)]);
    let mut work = vec![bb(0)];
    while let Some(b) = work.pop() {
        for s in successors(&body[b.index()]) {
            if seen.insert(s) {
                work.push(s);
            }
        }
    }
    seen
}

/// The tree passes WASM's validation and shows every reachable block.
fn well_formed(tree: &Structured, body: &[TerminatorKind]) {
    check_branch_depths(tree).expect("branch depth must stay inside its enclosing blocks");
    let shown: HashSet<BasicBlock> = blocks_in(tree).into_iter().collect();
    assert_eq!(shown, reachable(body), "every reachable block must appear");
}

fn has_loop(t: &Structured) -> bool {
    match t {
        Structured::Loop(_) => true,
        Structured::Block(items) => items.iter().any(has_loop),
        Structured::If { then, els, .. } => then.iter().chain(els).any(has_loop),
        _ => false,
    }
}

#[test]
fn straight_line() {
    let body = vec![goto(1), TerminatorKind::Return];
    let tree = structure(&body).unwrap();
    well_formed(&tree, &body);
}

#[test]
fn if_else_join() {
    //   bb0 --> bb1 --\
    //       \-> bb2 --> bb3
    let body = vec![branch(1, 2), goto(3), goto(3), TerminatorKind::Return];
    let tree = structure(&body).unwrap();
    well_formed(&tree, &body);

    // The join bb3 is wrapped in a block, left by `br` from both arms.
    let Structured::Block(items) = &tree else {
        panic!("{tree:?}");
    };
    assert!(
        matches!(items.first(), Some(Structured::Block(_))),
        "the join must be wrapped in a block: {tree:?}"
    );
}

#[test]
fn while_loop() {
    //   bb0 --> bb1(head) --> bb2(body) --> bb1
    //                     \-> bb3(exit)
    let body = vec![goto(1), branch(2, 3), goto(1), TerminatorKind::Return];
    let tree = structure(&body).unwrap();
    well_formed(&tree, &body);
    assert!(has_loop(&tree), "a back edge must produce a loop: {tree:?}");
}

#[test]
fn nested_if_with_shared_join() {
    //   bb0 -> bb1 -> {bb3, bb4} -> bb5 -> bb6
    //       \-> bb2 -----------------^
    let body = vec![
        branch(1, 2),
        branch(3, 4),
        goto(5),
        goto(5),
        goto(5),
        goto(6),
        TerminatorKind::Return,
    ];
    let tree = structure(&body).unwrap();
    well_formed(&tree, &body);
}

#[test]
fn early_return_leaves_no_join() {
    //   bb0 -> bb1(return)
    //       \-> bb2(return)
    let body = vec![branch(1, 2), TerminatorKind::Return, TerminatorKind::Return];
    let tree = structure(&body).unwrap();
    well_formed(&tree, &body);

    // No join, so no extra block.
    let Structured::Block(items) = &tree else {
        panic!("{tree:?}");
    };
    assert!(
        matches!(items.first(), Some(Structured::Simple(_))),
        "no join means no extra block: {tree:?}"
    );
}

#[test]
fn unreachable_blocks_are_ignored() {
    let body = vec![
        TerminatorKind::Return,
        // Nothing leads here.
        goto(0),
    ];
    let tree = structure(&body).unwrap();
    well_formed(&tree, &body);
    let shown: HashSet<BasicBlock> = blocks_in(&tree).into_iter().collect();
    assert_eq!(shown, HashSet::from([bb(0)]));
}

#[test]
fn loop_with_inner_branch() {
    //   bb0 -> bb1(head) -> bb2 -> {bb3, bb4} -> bb5 -> bb1
    //                    \-> bb6(exit)
    let body = vec![
        goto(1),
        branch(2, 6),
        branch(3, 4),
        goto(5),
        goto(5),
        goto(1),
        TerminatorKind::Return,
    ];
    let tree = structure(&body).unwrap();
    well_formed(&tree, &body);
}

#[test]
fn irreducible_graph_is_refused() {
    //   bb0 -> {bb1, bb2}, bb1 <-> bb2: a loop entered at two places.
    let body = vec![branch(1, 2), goto(2), goto(1)];
    let err = structure(&body).unwrap_err();
    assert!(err.message().starts_with("control flow graph is irreducible at bb"));
}

#[test]
fn irreducible_error_names_a_block_of_the_loop() {
    let body = vec![branch(1, 2), goto(2), goto(1), goto(0)];
    let msg = structure(&body).unwrap_err().message();
    assert!(
        msg == "control flow graph is irreducible at bb1; it cannot be structured"
            || msg == "control flow graph is irreducible at bb2; it cannot be structured"
    );
}

#[test]
fn branch_depth_check_reports_the_first_bad_depth() {
    let ok = Structured::Block(vec![Structured::Simple(bb(0)), Structured::Br(0)]);
    assert_eq!(check_branch_depths(&ok), Ok(()));
    let bad = Structured::Block(vec![Structured::Br(1), Structured::Loop(Box::new(Structured::Br(3)))]);
    assert_eq!(check_branch_depths(&bad), Err(1));
    assert_eq!(check_branch_depths(&Structured::Br(0)), Err(0));
}

#[test]
fn blocks_in_preorder() {
    let t = Structured::Block(vec![
        Structured::Simple(bb(0)),
        Structured::If { bb: bb(0), then: vec![Structured::Simple(bb(1))], els: vec![Structured::Simple(bb(2))] },
    ]);
    assert_eq!(blocks_in(&t), vec![bb(0), bb(0), bb(1), bb(2)]);
}
