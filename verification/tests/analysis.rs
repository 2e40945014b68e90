use std::collections::HashMap;

use analyzer::analysis::{Analysis, Node};
use analyzer::dot::push_decimal;
use analyzer::program::{Block, Constraint, Field, FilterOp, Internable, Interner};

const TIMER: u32 = 100;

fn fadd(x: u64, y: u64) -> u64 {
    (f64::from_bits(x) + f64::from_bits(y)).to_bits()
}

fn fsub(x: u64, y: u64) -> u64 {
    (f64::from_bits(x) - f64::from_bits(y)).to_bits()
}

fn fmul(x: u64, y: u64) -> u64 {
    (f64::from_bits(x) * f64::from_bits(y)).to_bits()
}

fn fdiv(x: u64, y: u64) -> u64 {
    (f64::from_bits(x) / f64::from_bits(y)).to_bits()
}

/// Ids 0 (null), 1 (the tag attribute), strings up to 100 (the timer tag),
/// with numbers at 2 (2.0) and 5 (5.0).
fn interner() -> Interner {
    let mut values = vec![Internable::String; 101];
    values[0] = Internable::Null;
    values[2] = Internable::Number(2.0f64.to_bits());
    values[5] = Internable::Number(5.0f64.to_bits());
    Interner { values }
}

fn r(i: usize) -> Field {
    Field::Register(i)
}

fn v(i: u32) -> Field {
    Field::Value(i)
}

fn scan(e: Field, a: Field, val: Field) -> Constraint {
    Constraint::Scan { e, a, v: val }
}

fn insert(e: Field, a: Field, val: Field) -> Constraint {
    Constraint::Insert { e, a, v: val }
}

/// Block 10 runs on the timer, reads people (tag 6) younger than 2 and
/// writes people; block 11 reads people older than 5.
fn timer_program() -> Vec<Block> {
    vec![
        Block {
            block_id: 10,
            constraints: vec![
                scan(r(0), v(1), v(TIMER)),
                scan(r(3), v(1), v(6)),
                scan(r(3), v(7), r(4)),
                Constraint::Filter { comparison: FilterOp::Less, left: r(4), right: v(2) },
                insert(r(5), v(1), v(6)),
            ],
        },
        Block {
            block_id: 11,
            constraints: vec![
                scan(r(0), v(1), v(6)),
                scan(r(0), v(7), r(1)),
                Constraint::Filter { comparison: FilterOp::Greater, left: r(1), right: v(5) },
            ],
        },
    ]
}

fn shape(n: &Node) -> (usize, u32, u32, Vec<usize>, Vec<usize>) {
    (n.id, n.block, n.input, n.next.clone(), n.back_edges.clone())
}

#[test]
fn new_analysis_knows_only_the_timer() {
    let a = Analysis::new(TIMER);
    assert!(a.blocks.is_empty());
    assert!(a.externals.contains(&TIMER));
    assert_eq!(a.externals.len(), 1);
    assert!(a.setup_blocks.is_empty());
    assert!(a.root_blocks.ids().is_empty());
    assert!(a.tags.is_empty());
    assert!(a.chains.is_empty());
    assert!(a.nodes.is_empty());
    assert!(a.dirty_blocks.is_empty());
}

#[test]
fn adding_blocks_marks_them_dirty() {
    let mut a = Analysis::new(TIMER);
    for block in timer_program() {
        a.block(&block);
    }
    a.block(&timer_program()[0]);
    assert_eq!(a.dirty_blocks, vec![10, 11, 10]);
    assert_eq!(a.blocks.len(), 2);
    assert_eq!(a.blocks.get(&11).unwrap().constraints.len(), 3);
    assert!(!a.blocks.get(&10).unwrap().has_scans);
}

#[test]
fn gathering_registers_inputs_and_roots() {
    let mut a = Analysis::new(TIMER);
    for block in timer_program() {
        a.block(&block);
    }
    a.gather_dirty_blocks(&interner(), &fadd, &fsub, &fmul, &fdiv);
    assert!(a.dirty_blocks.is_empty());
    assert_eq!(a.inputs.get((0, 1, 6)), Some(&vec![10, 11]));
    assert_eq!(a.inputs.get((6, 1, 6)), Some(&vec![10, 11]));
    assert_eq!(a.inputs.get((6, 7, 0)), Some(&vec![10, 11]));
    assert_eq!(a.inputs.get((TIMER, 1, TIMER)), Some(&vec![10]));
    assert_eq!(a.inputs.get((6, 1, 0)), None);
    assert_eq!(a.root_blocks.ids(), &vec![TIMER]);
    assert_eq!(a.root_blocks.get(TIMER), Some(&vec![10]));
    assert!(a.setup_blocks.is_empty());
    assert!(a.blocks.get(&10).unwrap().has_scans);
    assert_eq!(a.blocks.get(&10).unwrap().outputs, vec![(0, 1, 6), (6, 1, 6)]);
}

#[test]
fn chains_start_at_setup_blocks_and_external_tags() {
    let mut a = Analysis::new(TIMER);
    for block in timer_program() {
        a.block(&block);
    }
    a.block(&Block { block_id: 12, constraints: vec![insert(r(0), v(1), v(6))] });
    a.gather_dirty_blocks(&interner(), &fadd, &fsub, &fmul, &fdiv);
    assert_eq!(a.setup_blocks, vec![12]);
    let (nodes, chains) = a.build_all_chains();
    // the setup chain of block 12 comes first: 12 (0) leads to 10 (1),
    // which leads to 11 (2) and back to itself, and to 11 (3); then the
    // timer (4) leads to 10 (5), which leads to 11 (6) and back to itself
    let shapes: Vec<_> = nodes.iter().map(shape).collect();
    assert_eq!(
        shapes,
        vec![
            (2, 11, 0, vec![], vec![]),
            (1, 10, 0, vec![2], vec![1]),
            (3, 11, 0, vec![], vec![]),
            (0, 12, 0, vec![1, 3], vec![]),
            (6, 11, 0, vec![], vec![]),
            (5, 10, 0, vec![6], vec![5]),
            (4, 0, TIMER, vec![5], vec![]),
        ]
    );
    assert_eq!(chains, vec![0, 4]);
    let sorted = Analysis::sort_by_id(nodes);
    let ids: Vec<usize> = sorted.iter().map(|n| n.id).collect();
    assert_eq!(ids, vec![0, 1, 2, 3, 4, 5, 6]);
}

#[test]
fn build_chain_leaves_the_path_as_it_was() {
    let mut a = Analysis::new(TIMER);
    for block in timer_program() {
        a.block(&block);
    }
    a.gather_dirty_blocks(&interner(), &fadd, &fsub, &fmul, &fdiv);
    let mut nodes = vec![];
    let mut seen = HashMap::new();
    let mut next_ix = 7;
    let root = a.build_chain(10, &mut nodes, &mut seen, &mut next_ix);
    assert_eq!(root, 7);
    assert_eq!(next_ix, 9);
    assert!(seen.is_empty());
    let shapes: Vec<_> = nodes.iter().map(shape).collect();
    assert_eq!(shapes, vec![(8, 11, 0, vec![], vec![]), (7, 10, 0, vec![8], vec![7])]);
}

#[test]
fn analyze_cuts_followers_that_cannot_match() {
    let mut a = Analysis::new(TIMER);
    for block in timer_program() {
        a.block(&block);
    }
    a.analyze(&interner(), &fadd, &fsub, &fmul, &fdiv);
    assert_eq!(a.chains, vec![0]);
    let shapes: Vec<_> = a.nodes.iter().map(shape).collect();
    assert_eq!(
        shapes,
        vec![
            (0, 0, TIMER, vec![1], vec![]),
            (1, 10, 0, vec![], vec![1]),
            (2, 11, 0, vec![], vec![]),
        ]
    );
}

#[test]
fn analyze_keeps_followers_that_can_match() {
    let mut program = timer_program();
    // block 11 now reads people younger than 5, which block 10 may write
    program[1].constraints[2] = Constraint::Filter { comparison: FilterOp::Less, left: r(1), right: v(5) };
    let mut a = Analysis::new(TIMER);
    for block in program {
        a.block(&block);
    }
    a.analyze(&interner(), &fadd, &fsub, &fmul, &fdiv);
    let shapes: Vec<_> = a.nodes.iter().map(shape).collect();
    assert_eq!(
        shapes,
        vec![
            (0, 0, TIMER, vec![1], vec![]),
            (1, 10, 0, vec![2], vec![1]),
            (2, 11, 0, vec![], vec![]),
        ]
    );
}

#[test]
fn a_pulse_block_marks_its_tag() {
    let mut a = Analysis::new(TIMER);
    a.block(&Block { block_id: 30, constraints: vec![scan(r(0), v(1), v(9)), Constraint::RemoveEntity { e: r(0) }] });
    a.analyze(&interner(), &fadd, &fsub, &fmul, &fdiv);
    assert!(a.tags.get(&9).unwrap().is_pulse);
    assert!(!a.tags.get(&9).unwrap().external);
    assert_eq!(a.tags.len(), 1);
    assert!(a.chains.is_empty());
    assert!(a.nodes.is_empty());
}

#[test]
fn dot_chains_draw_the_optimized_chains() {
    let mut a = Analysis::new(TIMER);
    for block in timer_program() {
        a.block(&block);
    }
    a.analyze(&interner(), &fadd, &fsub, &fmul, &fdiv);
    assert_eq!(
        a.make_dot_chains(),
        "digraph program {\n0 [label=\"0\"]\n0 -> 1;\n1 [label=\"10\"]\n1 -> 1;\n}"
    );
    let mut link = String::from("x");
    a.dot_chain_link(1, &mut link);
    assert_eq!(link, "x1 [label=\"10\"]\n1 -> 1;\n");
}

#[test]
fn dot_graph_draws_every_follower() {
    let mut a = Analysis::new(TIMER);
    for block in timer_program() {
        a.block(&block);
    }
    a.analyze(&interner(), &fadd, &fsub, &fmul, &fdiv);
    assert_eq!(a.make_dot_graph(), "digraph program {\n10 -> 10;\n10 -> 11;\n}");
}

#[test]
fn decimal_text_of_integers() {
    let mut s = String::new();
    push_decimal(&mut s, 0);
    s.push(' ');
    push_decimal(&mut s, 7);
    s.push(' ');
    push_decimal(&mut s, 1234);
    s.push(' ');
    push_decimal(&mut s, u64::MAX);
    assert_eq!(s, "0 7 1234 18446744073709551615");
}

#[test]
fn optimizing_a_chain_only_cuts_edges() {
    let mut a = Analysis::new(TIMER);
    for block in timer_program() {
        a.block(&block);
    }
    a.gather_dirty_blocks(&interner(), &fadd, &fsub, &fmul, &fdiv);
    let (nodes, chains) = a.build_all_chains();
    a.nodes = Analysis::sort_by_id(nodes);
    let before: Vec<_> = a.nodes.iter().map(shape).collect();
    a.optimize_chain(chains[0]);
    let after: Vec<_> = a.nodes.iter().map(shape).collect();
    assert_eq!(before.len(), after.len());
    for (b, f) in before.iter().zip(after.iter()) {
        assert_eq!((b.0, b.1, b.2), (f.0, f.1, f.2));
        assert!(f.3.iter().all(|x| b.3.contains(x)));
        assert!(f.4.iter().all(|x| b.4.contains(x)));
    }
    assert_eq!(before[1].3, vec![2]);
    assert_eq!(after[1].3, Vec::<usize>::new());
}

#[test]
fn build_chain_takes_a_root_already_on_the_path_off_it() {
    let mut a = Analysis::new(TIMER);
    for block in timer_program() {
        a.block(&block);
    }
    a.gather_dirty_blocks(&interner(), &fadd, &fsub, &fmul, &fdiv);
    let mut nodes = vec![];
    let mut seen = HashMap::new();
    seen.insert(10u32, 99usize);
    seen.insert(5u32, 3usize);
    let mut next_ix = 7;
    let root = a.build_chain(10, &mut nodes, &mut seen, &mut next_ix);
    assert_eq!(root, 7);
    assert_eq!(next_ix, 9);
    assert_eq!(seen.len(), 1);
    assert_eq!(seen.get(&5), Some(&3));
    let shapes: Vec<_> = nodes.iter().map(shape).collect();
    assert_eq!(shapes, vec![(8, 11, 0, vec![], vec![]), (7, 10, 0, vec![8], vec![7])]);
}
