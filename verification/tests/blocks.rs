use std::collections::HashMap;

use analyzer::block_info::{field_to_domain, merge_field_domain, merge_output_domain, merge_tag_domain, BlockInfo};
use analyzer::bound::Bound;
use analyzer::domain::Domain;
use analyzer::program::{Block, Constraint, Field, FilterOp, FunctionOp, Internable, Interner};
use analyzer::tables::PairMap;

fn fadd(x: u64, y: u64) -> u64 {
    (f64::from_bits(x) + f64::from_bits(y)).to_bits()
}

fn fsub(x: u64, y: u64) -> u64 {
    (f64::from_bits(x) - f64::from_bits(y)).to_bits()
}

fn fmul(x: u64, y: u64) -> u64 {
    (f64::from_bits(x) * f64::from_bits(y)).to_bits()
}

fn fdiv(x: u64, y: u64) -> u64 {
    (f64::from_bits(x) / f64::from_bits(y)).to_bits()
}

fn b(x: f64) -> u64 {
    x.to_bits()
}

/// Ids 0 (null), 1 (the tag attribute) and strings up to 20, with numbers
/// at 2 (2.0), 3 (3.0), 5 (5.0) and 11 (1.0).
fn interner() -> Interner {
    let mut values = vec![Internable::String; 21];
    values[0] = Internable::Null;
    values[2] = Internable::Number(b(2.0));
    values[3] = Internable::Number(b(3.0));
    values[5] = Internable::Number(b(5.0));
    values[11] = Internable::Number(b(1.0));
    Interner { values }
}

fn r(i: usize) -> Field {
    Field::Register(i)
}

fn v(i: u32) -> Field {
    Field::Value(i)
}

fn scan(e: Field, a: Field, val: Field) -> Constraint {
    Constraint::Scan { e, a, v: val }
}

fn insert(e: Field, a: Field, val: Field) -> Constraint {
    Constraint::Insert { e, a, v: val }
}

fn gathered(block: &Block) -> BlockInfo {
    let interner = interner();
    let mut info = BlockInfo::new(block);
    info.gather_inputs_outputs(&interner, &fadd, &fsub, &fmul, &fdiv);
    info
}

#[test]
fn new_block_info_copies_the_block() {
    let block = Block { block_id: 4, constraints: vec![scan(r(0), v(1), v(6))] };
    let info = BlockInfo::new(&block);
    assert_eq!(info.id, 4);
    assert_eq!(info.constraints, block.constraints);
    assert!(!info.has_scans);
    assert!(!info.is_pulse);
    assert!(info.inputs.is_empty());
    assert!(info.outputs.is_empty());
    assert!(info.input_domains.pairs().is_empty());
    assert!(info.output_domains.pairs().is_empty());
    assert_eq!(info.field_to_tags.get(&r(0)), None);
}

#[test]
fn gather_tags_maps_entities_to_their_tags() {
    let block = Block {
        block_id: 3,
        constraints: vec![
            scan(r(0), v(1), v(5)),
            insert(r(1), v(1), v(6)),
            Constraint::LookupCommit { e: r(0), a: v(1), v: v(7) },
            scan(r(2), v(9), v(5)),
            scan(r(3), v(1), r(4)),
            Constraint::Remove { e: r(5), a: v(1), v: v(8) },
        ],
    };
    let mut info = BlockInfo::new(&block);
    info.gather_tags();
    assert_eq!(info.field_to_tags.get(&r(0)), Some(&vec![5, 7]));
    assert_eq!(info.field_to_tags.get(&r(1)), Some(&vec![6]));
    assert_eq!(info.field_to_tags.get(&r(2)), None);
    assert_eq!(info.field_to_tags.get(&r(3)), None);
    assert_eq!(info.field_to_tags.get(&r(5)), None);
    // gathering again appends the same tags once more
    info.gather_tags();
    assert_eq!(info.field_to_tags.get(&r(0)), Some(&vec![5, 7, 5, 7]));
}

#[test]
fn gather_domains_settles_registers() {
    let block = Block {
        block_id: 3,
        constraints: vec![
            scan(r(0), v(1), r(1)),
            Constraint::Filter { comparison: FilterOp::Greater, left: r(1), right: v(3) },
            Constraint::Function { operator: FunctionOp::Add, left: r(1), right: v(11), output: r(2) },
        ],
    };
    let mut info = BlockInfo::new(&block);
    let domains = info.gather_domains(&interner(), &fadd, &fsub, &fmul, &fdiv);
    assert_eq!(domains.len(), 3);
    assert_eq!(domains.get(&0), Some(&Domain::Record));
    assert_eq!(domains.get(&1), Some(&Domain::Number(Bound::Excluded(b(3.0)), Bound::Infinity)));
    assert_eq!(domains.get(&2), Some(&Domain::Number(Bound::Excluded(b(4.0)), Bound::Infinity)));
}

#[test]
fn gather_domains_follows_each_comparison() {
    let block = Block {
        block_id: 3,
        constraints: vec![
            Constraint::Filter { comparison: FilterOp::Less, left: r(0), right: v(3) },
            Constraint::Filter { comparison: FilterOp::GreaterEqual, left: v(2), right: r(1) },
            Constraint::Filter { comparison: FilterOp::LessEqual, left: v(2), right: r(2) },
            Constraint::Filter { comparison: FilterOp::Equal, left: r(3), right: v(5) },
            Constraint::Function { operator: FunctionOp::Multiply, left: r(4), right: v(3), output: r(5) },
        ],
    };
    let mut info = BlockInfo::new(&block);
    let domains = info.gather_domains(&interner(), &fadd, &fsub, &fmul, &fdiv);
    assert_eq!(domains.get(&0), Some(&Domain::Number(Bound::NegativeInfinity, Bound::Excluded(b(3.0)))));
    assert_eq!(domains.get(&1), Some(&Domain::Number(Bound::NegativeInfinity, Bound::Included(b(2.0)))));
    assert_eq!(domains.get(&2), Some(&Domain::Number(Bound::Included(b(2.0)), Bound::Infinity)));
    assert_eq!(domains.get(&3), Some(&Domain::Number(Bound::Included(b(5.0)), Bound::Included(b(5.0)))));
    assert_eq!(domains.get(&4), Some(&Domain::Number(Bound::NegativeInfinity, Bound::Infinity)));
    assert_eq!(domains.get(&5), Some(&Domain::Number(Bound::NegativeInfinity, Bound::Infinity)));
}

#[test]
fn gather_inputs_outputs_reads_scans_and_writes() {
    let block = Block {
        block_id: 20,
        constraints: vec![
            scan(r(0), v(1), v(6)),
            scan(r(0), v(7), r(1)),
            Constraint::Filter { comparison: FilterOp::Greater, left: r(1), right: v(3) },
            insert(r(2), v(1), v(8)),
            insert(r(2), v(7), r(1)),
            Constraint::Remove { e: r(2), a: v(9), v: v(12) },
            Constraint::RemoveAttribute { e: r(0), a: v(9) },
        ],
    };
    let info = gathered(&block);
    let above_three = Domain::Number(Bound::Excluded(b(3.0)), Bound::Infinity);
    assert!(info.has_scans);
    assert!(!info.is_pulse);
    assert_eq!(info.inputs, vec![(0, 1, 6), (6, 1, 6), (6, 7, 0)]);
    assert_eq!(info.outputs, vec![(0, 1, 8), (8, 1, 8), (8, 7, 0), (8, 9, 12), (6, 9, 0)]);
    assert_eq!(info.input_domains.pairs(), &vec![(6, 1), (6, 7)]);
    assert_eq!(info.input_domains.get(6, 1), Some(&Domain::String));
    assert_eq!(info.input_domains.get(6, 7), Some(&above_three));
    assert_eq!(info.output_domains.pairs(), &vec![(8, 1), (8, 7), (8, 9), (6, 9)]);
    assert_eq!(info.output_domains.get(8, 1), Some(&vec![Domain::String]));
    assert_eq!(info.output_domains.get(8, 7), Some(&vec![above_three]));
    assert_eq!(info.output_domains.get(8, 9), Some(&vec![Domain::Removed]));
    assert_eq!(info.output_domains.get(6, 9), Some(&vec![Domain::Removed]));
}

#[test]
fn a_scan_and_removal_of_one_entity_is_a_pulse() {
    let block = Block { block_id: 21, constraints: vec![scan(r(0), v(1), v(6)), Constraint::RemoveEntity { e: r(0) }] };
    let info = gathered(&block);
    assert!(info.is_pulse);
    assert!(info.has_scans);
    assert_eq!(info.inputs, vec![(0, 1, 6), (6, 1, 6)]);
    assert_eq!(info.outputs, vec![(6, 0, 0), (6, 1, 6)]);
    assert_eq!(info.output_domains.get(6, 1), Some(&vec![Domain::Removed]));
}

#[test]
fn removing_another_entity_is_no_pulse() {
    let block = Block { block_id: 22, constraints: vec![scan(r(0), v(1), v(6)), Constraint::RemoveEntity { e: r(1) }] };
    let info = gathered(&block);
    assert!(!info.is_pulse);
    // an entity without tags counts as tagged 0
    assert_eq!(info.outputs, vec![(0, 0, 0), (0, 1, 0)]);
    assert_eq!(info.output_domains.get(0, 1), Some(&vec![Domain::Removed]));
}

#[test]
fn a_block_without_scans_has_no_inputs() {
    let block = Block { block_id: 23, constraints: vec![insert(r(0), v(1), v(6)), insert(r(0), v(7), v(3))] };
    let info = gathered(&block);
    assert!(!info.has_scans);
    assert!(info.inputs.is_empty());
    assert_eq!(info.outputs, vec![(0, 1, 6), (6, 1, 6), (6, 7, 3)]);
    assert_eq!(info.output_domains.get(6, 7), Some(&vec![Domain::Number(Bound::Included(b(3.0)), Bound::Included(b(3.0)))]));
}

#[test]
fn field_to_domain_reads_values_and_registers() {
    let interner = interner();
    let mut domains = HashMap::new();
    domains.insert(4usize, Domain::Record);
    assert_eq!(field_to_domain(&interner, &v(6), &domains), Domain::String);
    assert_eq!(
        field_to_domain(&interner, &v(5), &domains),
        Domain::Number(Bound::Included(b(5.0)), Bound::Included(b(5.0)))
    );
    assert_eq!(field_to_domain(&interner, &r(4), &domains), Domain::Record);
    assert_eq!(field_to_domain(&interner, &r(9), &domains), Domain::Unknown);
}

#[test]
fn merge_field_domain_reports_changes() {
    let mut domains = HashMap::new();
    let mut changed = false;
    merge_field_domain(&v(3), &mut domains, Domain::String, &mut changed);
    assert!(!changed);
    assert!(domains.is_empty());
    merge_field_domain(&r(1), &mut domains, Domain::Unknown, &mut changed);
    assert!(!changed);
    assert_eq!(domains.get(&1), Some(&Domain::Unknown));
    merge_field_domain(&r(1), &mut domains, Domain::String, &mut changed);
    assert!(changed);
    assert_eq!(domains.get(&1), Some(&Domain::String));
    let mut again = false;
    merge_field_domain(&r(1), &mut domains, Domain::String, &mut again);
    assert!(!again);
    merge_field_domain(&r(1), &mut domains, Domain::Record, &mut again);
    assert!(again);
    assert_eq!(domains.get(&1), Some(&Domain::MultiType));
}

#[test]
fn merge_tag_domain_narrows_the_pair() {
    let interner = interner();
    let mut field_domains = HashMap::new();
    field_domains.insert(0usize, Domain::Number(Bound::NegativeInfinity, Bound::Included(b(5.0))));
    let mut tags: PairMap<Domain> = PairMap::new();
    merge_tag_domain(&interner, &mut tags, &field_domains, 6, 7, &r(0));
    assert_eq!(tags.get(6, 7), Some(&Domain::Number(Bound::NegativeInfinity, Bound::Included(b(5.0)))));
    merge_tag_domain(&interner, &mut tags, &field_domains, 6, 7, &v(2));
    assert_eq!(tags.get(6, 7), Some(&Domain::Number(Bound::Included(b(2.0)), Bound::Included(b(2.0)))));
    assert_eq!(tags.pairs(), &vec![(6, 7)]);
}

#[test]
fn merge_output_domain_lists_each_write() {
    let interner = interner();
    let field_domains = HashMap::new();
    let mut tags: PairMap<Vec<Domain>> = PairMap::new();
    merge_output_domain(&interner, &mut tags, &field_domains, 6, 7, &v(6), false);
    merge_output_domain(&interner, &mut tags, &field_domains, 6, 7, &v(0), true);
    merge_output_domain(&interner, &mut tags, &field_domains, 8, 1, &r(3), false);
    assert_eq!(tags.get(6, 7), Some(&vec![Domain::String, Domain::Removed]));
    assert_eq!(tags.get(8, 1), Some(&vec![Domain::Unknown]));
    assert_eq!(tags.pairs(), &vec![(6, 7), (8, 1)]);
}

#[test]
fn a_settled_sweep_changes_nothing() {
    let block = Block {
        block_id: 3,
        constraints: vec![
            scan(r(0), v(1), r(1)),
            Constraint::Filter { comparison: FilterOp::Greater, left: r(1), right: v(3) },
            Constraint::Function { operator: FunctionOp::Add, left: r(1), right: v(11), output: r(2) },
        ],
    };
    let interner = interner();
    let mut info = BlockInfo::new(&block);
    let settled = info.gather_domains(&interner, &fadd, &fsub, &fmul, &fdiv);
    let mut again = settled.clone();
    let changed = info.gather_domains_round(&interner, &mut again, &fadd, &fsub, &fmul, &fdiv);
    assert!(!changed);
    assert_eq!(again, settled);
    // from nothing, the first sweep does change the domains
    let mut fresh = HashMap::new();
    assert!(info.gather_domains_round(&interner, &mut fresh, &fadd, &fsub, &fmul, &fdiv));
    assert_eq!(fresh, settled);
}
