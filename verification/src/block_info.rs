use std::collections::HashMap;
use vstd::prelude::*;

use crate::bound::{as_fn, well_behaved, Bound};
use crate::domain::{
    add_domain, arithmetic_defined, divide_domain, multiply_domain, product_defined,
    spec_add_domain, spec_divide_domain, spec_multiply_domain, spec_subtract_domain,
    subtract_domain, Domain,
};
use crate::number::{num_le, num_lt};
use crate::domain::in_interval;
use crate::program::{
    Block, Constraint, FilterOp, Field, FunctionOp, Internable, Interner, TAG_INTERNED_ID,
};
use crate::tables::{tags_of, with_key, FieldTags, PairMap};

verus! {

broadcast use vstd::std_specs::hash::group_hash_axioms;

/// A value field names an id that the interner holds and that is not null.
pub open spec fn field_defined(values: Seq<Internable>, f: Field) -> bool {
    match f {
        Field::Value(v) => (v as int) < values.len() && !(values[v as int] is Null),
        Field::Register(_) => true,
    }
}

/// The domain recorded for a register, unknown when none is.
pub open spec fn register_domain(fd: Map<usize, Domain>, r: usize) -> Domain {
    if fd.contains_key(r) {
        fd[r]
    } else {
        Domain::Unknown
    }
}

/// The domain of a field: a string value is a string, a number value the
/// one-point interval around it, and a register has its recorded domain.
pub open spec fn spec_field_to_domain(values: Seq<Internable>, f: Field, fd: Map<usize, Domain>) -> Domain {
    match f {
        Field::Value(v) => match values[v as int] {
            Internable::String => Domain::String,
            Internable::Number(n) => Domain::Number(Bound::Included(n), Bound::Included(n)),
            Internable::Null => Domain::Unknown,
        },
        Field::Register(r) => register_domain(fd, r),
    }
}

/// Merging into a field is defined: values are never merged into, and a
/// register's domain must accept the merge.
pub open spec fn merge_field_defined(fd: Map<usize, Domain>, f: Field, to_merge: Domain) -> bool {
    match f {
        Field::Register(r) => register_domain(fd, r).merge_defined(to_merge),
        Field::Value(_) => true,
    }
}

/// The register domains after merging into a field: a register gets its
/// domain merged with `to_merge` (and an entry in any case); a value field
/// leaves them alone.
pub open spec fn merged_field(fd: Map<usize, Domain>, f: Field, to_merge: Domain) -> Map<usize, Domain> {
    match f {
        Field::Register(r) => fd.insert(r, register_domain(fd, r).merged(to_merge)),
        Field::Value(_) => fd,
    }
}

/// Whether merging into a field changes its domain.
pub open spec fn merge_changes(fd: Map<usize, Domain>, f: Field, to_merge: Domain) -> bool {
    match f {
        Field::Register(r) => register_domain(fd, r).merged(to_merge) != register_domain(fd, r),
        Field::Value(_) => false,
    }
}

/// The domain recorded for a pair, unknown when none is.
pub open spec fn pair_domain(m: Map<(u32, u32), Domain>, k: (u32, u32)) -> Domain {
    if m.contains_key(k) {
        m[k]
    } else {
        Domain::Unknown
    }
}

/// The domains recorded for a pair, none when it has no entry.
pub open spec fn pair_domains(m: Map<(u32, u32), Vec<Domain>>, k: (u32, u32)) -> Seq<Domain> {
    if m.contains_key(k) {
        m[k]@
    } else {
        Seq::empty()
    }
}

pub fn field_to_domain(interner: &Interner, field: &Field, field_domains: &HashMap<usize, Domain>) -> (r: Domain)
    requires
        field_defined(interner.values@, *field),
    ensures
        r == spec_field_to_domain(interner.values@, *field, field_domains@),
{
    match field {
        Field::Value(v) => match interner.get_value(*v) {
            Internable::String => Domain::String,
            Internable::Number(n) => Domain::Number(Bound::Included(n), Bound::Included(n)),
            Internable::Null => Domain::Unknown,
        },
        Field::Register(r) => match field_domains.get(r) {
            Some(d) => *d,
            None => Domain::Unknown,
        },
    }
}

/// Merges `to_merge` into the domain of a register field and notes in
/// `changed` whether the domain changed; value fields are left alone.
pub fn merge_field_domain(
    field: &Field,
    field_domains: &mut HashMap<usize, Domain>,
    to_merge: Domain,
    changed: &mut bool,
)
    requires
        merge_field_defined(old(field_domains)@, *field, to_merge),
    ensures
        final(field_domains)@ == merged_field(old(field_domains)@, *field, to_merge),
        *final(changed) == (*old(changed) || merge_changes(old(field_domains)@, *field, to_merge)),
{
    match field {
        Field::Register(r) => {
            let mut domain = match field_domains.get(r) {
                Some(d) => *d,
                None => Domain::Unknown,
            };
            let diff = domain.merge(&to_merge);
            field_domains.insert(*r, domain);
            *changed = *changed || diff;
        },
        Field::Value(_) => {},
    }
}

/// Merges the domain of `field` into the domain of the (tag, attribute) pair.
pub fn merge_tag_domain(
    interner: &Interner,
    tag_domains: &mut PairMap<Domain>,
    field_domains: &HashMap<usize, Domain>,
    tag: u32,
    attribute: u32,
    field: &Field,
)
    requires
        old(tag_domains).wf(),
        field_defined(interner.values@, *field),
        pair_domain(old(tag_domains)@, (tag, attribute)).merge_defined(
            spec_field_to_domain(interner.values@, *field, field_domains@),
        ),
    ensures
        final(tag_domains).wf(),
        final(tag_domains).order() == with_key(old(tag_domains).order(), (tag, attribute)),
        final(tag_domains)@ == old(tag_domains)@.insert(
            (tag, attribute),
            pair_domain(old(tag_domains)@, (tag, attribute)).merged(
                spec_field_to_domain(interner.values@, *field, field_domains@),
            ),
        ),
{
    let mut domain = match tag_domains.get(tag, attribute) {
        Some(d) => *d,
        None => Domain::Unknown,
    };
    domain.merge(&field_to_domain(interner, field, field_domains));
    tag_domains.insert(tag, attribute, domain);
}

/// Appends to the pair's domains a removal, or else the domain of `field`.
pub fn merge_output_domain(
    interner: &Interner,
    tag_domains: &mut PairMap<Vec<Domain>>,
    field_domains: &HashMap<usize, Domain>,
    tag: u32,
    attribute: u32,
    field: &Field,
    remove: bool,
)
    requires
        old(tag_domains).wf(),
        !remove ==> field_defined(interner.values@, *field),
    ensures
        final(tag_domains).wf(),
        final(tag_domains).order() == with_key(old(tag_domains).order(), (tag, attribute)),
        final(tag_domains)@ == old(tag_domains)@.insert((tag, attribute), final(tag_domains)@[(tag, attribute)]),
        final(tag_domains)@[(tag, attribute)]@ == pair_domains(old(tag_domains)@, (tag, attribute)).push(
            if remove {
                Domain::Removed
            } else {
                spec_field_to_domain(interner.values@, *field, field_domains@)
            },
        ),
{
    if remove {
        tag_domains.push_item(tag, attribute, Domain::Removed);
    } else {
        let field_domain = field_to_domain(interner, field, field_domains);
        tag_domains.push_item(tag, attribute, field_domain);
    }
    assert(final(tag_domains)@ =~= old(tag_domains)@.insert((tag, attribute), final(tag_domains)@[(tag, attribute)]));
}

/// The entity, attribute and value fields of a scan, insert or lookup.
pub open spec fn scan_like_fields(c: Constraint) -> Option<(Field, Field, Field)> {
    match c {
        Constraint::Scan { e, a, v } => Some((e, a, v)),
        Constraint::Insert { e, a, v } => Some((e, a, v)),
        Constraint::LookupCommit { e, a, v } => Some((e, a, v)),
        _ => None,
    }
}

/// The tag a constraint gives its entity: a scan, insert or lookup whose
/// attribute is `tag` and whose value is a nonzero interned value.
pub open spec fn tag_entry(c: Constraint) -> Option<(Field, u32)> {
    match scan_like_fields(c) {
        Some((e, a, v)) => if a.interned() == TAG_INTERNED_ID && v.interned() != 0 {
            Some((e, v.interned()))
        } else {
            None
        },
        None => None,
    }
}

/// The tags of `m` with those that the constraints give appended, in order.
pub open spec fn with_tags(m: Map<Field, Seq<u32>>, cs: Seq<Constraint>) -> Map<Field, Seq<u32>>
    decreases cs.len(),
{
    if cs.len() == 0 {
        m
    } else {
        let m1 = with_tags(m, cs.drop_last());
        match tag_entry(cs.last()) {
            Some((e, t)) => m1.insert(e, tags_of(m1, e).push(t)),
            None => m1,
        }
    }
}

/// The interval of all numbers.
pub open spec fn all_numbers() -> Domain {
    Domain::Number(Bound::NegativeInfinity, Bound::Infinity)
}

/// The domain a function's output gets from the domains of its operands.
pub open spec fn function_domain(
    op: FunctionOp,
    l: Domain,
    r: Domain,
    add: spec_fn(u64, u64) -> u64,
    subtract: spec_fn(u64, u64) -> u64,
    multiply: spec_fn(u64, u64) -> u64,
    divide: spec_fn(u64, u64) -> u64,
) -> Domain {
    match op {
        FunctionOp::Add => spec_add_domain(l, r, add),
        FunctionOp::Subtract => spec_subtract_domain(l, r, subtract),
        FunctionOp::Multiply => spec_multiply_domain(l, r, multiply),
        FunctionOp::Divide => spec_divide_domain(l, r, divide),
        FunctionOp::Other => Domain::Unknown,
    }
}

/// The operator is one of the four arithmetic ones.
pub open spec fn is_arithmetic(op: FunctionOp) -> bool {
    !(op is Other)
}

/// The operator is one of the four order comparisons.
pub open spec fn is_comparison(op: FilterOp) -> bool {
    !(op is Equal) && !(op is Other)
}

/// The interval that a comparison with the number `n` confines its
/// register side to; `register_left` tells on which side the register is.
pub open spec fn comparison_interval(op: FilterOp, register_left: bool, n: u64) -> Domain {
    match (op, register_left) {
        (FilterOp::Greater, true) => Domain::Number(Bound::Excluded(n), Bound::Infinity),
        (FilterOp::Greater, false) => Domain::Number(Bound::NegativeInfinity, Bound::Excluded(n)),
        (FilterOp::Less, true) => Domain::Number(Bound::NegativeInfinity, Bound::Excluded(n)),
        (FilterOp::Less, false) => Domain::Number(Bound::Excluded(n), Bound::Infinity),
        (FilterOp::GreaterEqual, true) => Domain::Number(Bound::Included(n), Bound::Infinity),
        (FilterOp::GreaterEqual, false) => Domain::Number(Bound::NegativeInfinity, Bound::Included(n)),
        (FilterOp::LessEqual, true) => Domain::Number(Bound::NegativeInfinity, Bound::Included(n)),
        (_, _) => Domain::Number(Bound::Included(n), Bound::Infinity),
    }
}

/// What the comparison says of the register's number `x` against the
/// number `n`, the register being on the left when `register_left`.
pub open spec fn compares(op: FilterOp, register_left: bool, x: u64, n: u64) -> bool {
    let l = if register_left { x } else { n };
    let r = if register_left { n } else { x };
    match op {
        FilterOp::Greater => num_lt(r, l),
        FilterOp::Less => num_lt(l, r),
        FilterOp::GreaterEqual => num_le(r, l),
        FilterOp::LessEqual => num_le(l, r),
        _ => true,
    }
}

/// The interval that a comparison with the number `n` confines its register
/// to holds exactly the numbers that satisfy the comparison; and a
/// comparison against a one-point interval around `n` confines the register
/// to that interval.
pub proof fn lemma_comparison_interval_is_exact(op: FilterOp, register_left: bool, n: u64, x: u64)
    requires
        is_comparison(op),
    ensures
        comparison_interval(op, register_left, n) is Number,
        in_interval(comparison_interval(op, register_left, n), x) == compares(op, register_left, x, n),
        comparison_domain(op, register_left, Domain::Number(Bound::Included(n), Bound::Included(n)))
            == comparison_interval(op, register_left, n),
{
}

/// What a comparison merges into its register side, given the domain of
/// its value side: an interval from the start of that domain, or the
/// domain itself when it is not an interval.
pub open spec fn comparison_domain(op: FilterOp, register_left: bool, source: Domain) -> Domain {
    match source {
        Domain::Number(start, _) => comparison_interval(op, register_left, start.value()),
        _ => source,
    }
}

/// One constraint's effect on the register domains, and whether a domain changed.
pub open spec fn domain_step(
    values: Seq<Internable>,
    c: Constraint,
    fd: Map<usize, Domain>,
    add: spec_fn(u64, u64) -> u64,
    subtract: spec_fn(u64, u64) -> u64,
    multiply: spec_fn(u64, u64) -> u64,
    divide: spec_fn(u64, u64) -> u64,
) -> (Map<usize, Domain>, bool) {
    match c {
        Constraint::Scan { e, a, v } | Constraint::LookupCommit { e, a, v } => {
            let fd1 = merged_field(fd, e, Domain::Record);
            let fd2 = merged_field(fd1, a, Domain::String);
            (
                merged_field(fd2, v, Domain::Unknown),
                merge_changes(fd, e, Domain::Record) || merge_changes(fd1, a, Domain::String)
                    || merge_changes(fd2, v, Domain::Unknown),
            )
        },
        Constraint::Function { operator, left, right, output } => if is_arithmetic(operator) {
            let fd1 = merged_field(fd, left, all_numbers());
            let fd2 = merged_field(fd1, right, all_numbers());
            let od = function_domain(
                operator,
                spec_field_to_domain(values, left, fd2),
                spec_field_to_domain(values, right, fd2),
                add,
                subtract,
                multiply,
                divide,
            );
            (
                merged_field(fd2, output, od),
                merge_changes(fd, left, all_numbers()) || merge_changes(fd1, right, all_numbers())
                    || merge_changes(fd2, output, od),
            )
        } else {
            (fd, false)
        },
        Constraint::Filter { comparison, left, right } => if comparison is Equal {
            let d = spec_field_to_domain(values, right, fd);
            (merged_field(fd, left, d), merge_changes(fd, left, d))
        } else if is_comparison(comparison) && left is Register && right is Value {
            let d = comparison_domain(comparison, true, spec_field_to_domain(values, right, fd));
            (merged_field(fd, left, d), merge_changes(fd, left, d))
        } else if is_comparison(comparison) && left is Value && right is Register {
            let d = comparison_domain(comparison, false, spec_field_to_domain(values, left, fd));
            (merged_field(fd, right, d), merge_changes(fd, right, d))
        } else {
            (fd, false)
        },
        _ => (fd, false),
    }
}

/// The step of `domain_step` is defined: every value looked up is held and
/// not null, every merge and every arithmetic operation is defined, and no
/// comparison sets two registers against each other.
pub open spec fn domain_step_defined(
    values: Seq<Internable>,
    c: Constraint,
    fd: Map<usize, Domain>,
    add: spec_fn(u64, u64) -> u64,
    subtract: spec_fn(u64, u64) -> u64,
    multiply: spec_fn(u64, u64) -> u64,
    divide: spec_fn(u64, u64) -> u64,
) -> bool {
    match c {
        Constraint::Function { operator, left, right, output } => is_arithmetic(operator) ==> {
            let fd1 = merged_field(fd, left, all_numbers());
            let fd2 = merged_field(fd1, right, all_numbers());
            let l = spec_field_to_domain(values, left, fd2);
            let r = spec_field_to_domain(values, right, fd2);
            &&& merge_field_defined(fd, left, all_numbers())
            &&& merge_field_defined(fd1, right, all_numbers())
            &&& field_defined(values, left)
            &&& field_defined(values, right)
            &&& arithmetic_defined(l, r)
            &&& (operator is Multiply ==> product_defined(l, r))
            &&& merge_field_defined(
                fd2,
                output,
                function_domain(operator, l, r, add, subtract, multiply, divide),
            )
        },
        Constraint::Filter { comparison, left, right } => if comparison is Equal {
            field_defined(values, right) && merge_field_defined(
                fd,
                left,
                spec_field_to_domain(values, right, fd),
            )
        } else if is_comparison(comparison) {
            &&& !(left is Register && right is Register)
            &&& (left is Register && right is Value) ==> field_defined(values, right)
                && merge_field_defined(
                fd,
                left,
                comparison_domain(comparison, true, spec_field_to_domain(values, right, fd)),
            )
            &&& (left is Value && right is Register) ==> field_defined(values, left)
                && merge_field_defined(
                fd,
                right,
                comparison_domain(comparison, false, spec_field_to_domain(values, left, fd)),
            )
        } else {
            true
        },
        _ => true,
    }
}

/// The register domains after one sweep over the constraints, in order,
/// and whether any domain changed.
pub open spec fn domain_round(
    values: Seq<Internable>,
    cs: Seq<Constraint>,
    fd: Map<usize, Domain>,
    add: spec_fn(u64, u64) -> u64,
    subtract: spec_fn(u64, u64) -> u64,
    multiply: spec_fn(u64, u64) -> u64,
    divide: spec_fn(u64, u64) -> u64,
) -> (Map<usize, Domain>, bool)
    decreases cs.len(),
{
    if cs.len() == 0 {
        (fd, false)
    } else {
        let prev = domain_round(values, cs.drop_last(), fd, add, subtract, multiply, divide);
        let step = domain_step(values, cs.last(), prev.0, add, subtract, multiply, divide);
        (step.0, prev.1 || step.1)
    }
}

/// The two tables give every register the same domain, a register
/// without an entry having the unknown domain.
pub open spec fn same_domains(fd1: Map<usize, Domain>, fd2: Map<usize, Domain>) -> bool {
    forall|r: usize| #[trigger] register_domain(fd1, r) == register_domain(fd2, r)
}

proof fn lemma_same_field(values: Seq<Internable>, fd1: Map<usize, Domain>, fd2: Map<usize, Domain>, f: Field, d: Domain)
    requires
        same_domains(fd1, fd2),
    ensures
        spec_field_to_domain(values, f, fd1) == spec_field_to_domain(values, f, fd2),
        merge_changes(fd1, f, d) == merge_changes(fd2, f, d),
        same_domains(merged_field(fd1, f, d), merged_field(fd2, f, d)),
{
    if let Field::Register(r) = f {
        assert(register_domain(fd1, r) == register_domain(fd2, r));
        assert forall|q: usize| #[trigger] register_domain(merged_field(fd1, f, d), q) == register_domain(merged_field(fd2, f, d), q) by {
            assert(register_domain(fd1, q) == register_domain(fd2, q));
        }
    }
}

proof fn lemma_unchanged_field(fd: Map<usize, Domain>, f: Field, d: Domain)
    requires
        !merge_changes(fd, f, d),
    ensures
        same_domains(fd, merged_field(fd, f, d)),
{
    if let Field::Register(r) = f {
        assert forall|q: usize| #[trigger] register_domain(fd, q) == register_domain(merged_field(fd, f, d), q) by {
        }
    }
}

proof fn lemma_same_domains_trans(fd1: Map<usize, Domain>, fd2: Map<usize, Domain>, fd3: Map<usize, Domain>)
    requires
        same_domains(fd1, fd2),
        same_domains(fd2, fd3),
    ensures
        same_domains(fd1, fd3),
{
    assert forall|r: usize| #[trigger] register_domain(fd1, r) == register_domain(fd3, r) by {
        assert(register_domain(fd1, r) == register_domain(fd2, r));
    }
}

proof fn lemma_step_congruent(
    values: Seq<Internable>,
    c: Constraint,
    fd1: Map<usize, Domain>,
    fd2: Map<usize, Domain>,
    add: spec_fn(u64, u64) -> u64,
    subtract: spec_fn(u64, u64) -> u64,
    multiply: spec_fn(u64, u64) -> u64,
    divide: spec_fn(u64, u64) -> u64,
)
    requires
        same_domains(fd1, fd2),
    ensures
        domain_step(values, c, fd1, add, subtract, multiply, divide).1 == domain_step(values, c, fd2, add, subtract, multiply, divide).1,
        same_domains(
            domain_step(values, c, fd1, add, subtract, multiply, divide).0,
            domain_step(values, c, fd2, add, subtract, multiply, divide).0,
        ),
{
    match c {
        Constraint::Scan { e, a, v } | Constraint::LookupCommit { e, a, v } => {
            lemma_same_field(values, fd1, fd2, e, Domain::Record);
            let g1 = merged_field(fd1, e, Domain::Record);
            let g2 = merged_field(fd2, e, Domain::Record);
            lemma_same_field(values, g1, g2, a, Domain::String);
            lemma_same_field(values, merged_field(g1, a, Domain::String), merged_field(g2, a, Domain::String), v, Domain::Unknown);
        },
        Constraint::Function { operator, left, right, output } => {
            if is_arithmetic(operator) {
                lemma_same_field(values, fd1, fd2, left, all_numbers());
                let g1 = merged_field(fd1, left, all_numbers());
                let g2 = merged_field(fd2, left, all_numbers());
                lemma_same_field(values, g1, g2, right, all_numbers());
                let h1 = merged_field(g1, right, all_numbers());
                let h2 = merged_field(g2, right, all_numbers());
                lemma_same_field(values, h1, h2, left, all_numbers());
                lemma_same_field(values, h1, h2, right, all_numbers());
                let od = function_domain(
                    operator,
                    spec_field_to_domain(values, left, h1),
                    spec_field_to_domain(values, right, h1),
                    add,
                    subtract,
                    multiply,
                    divide,
                );
                lemma_same_field(values, h1, h2, output, od);
            }
        },
        Constraint::Filter { comparison, left, right } => {
            lemma_same_field(values, fd1, fd2, right, Domain::Unknown);
            lemma_same_field(values, fd1, fd2, left, Domain::Unknown);
            let dr = spec_field_to_domain(values, right, fd1);
            let dl = spec_field_to_domain(values, left, fd1);
            lemma_same_field(values, fd1, fd2, left, dr);
            lemma_same_field(values, fd1, fd2, left, comparison_domain(comparison, true, dr));
            lemma_same_field(values, fd1, fd2, right, comparison_domain(comparison, false, dl));
        },
        _ => {},
    }
}

proof fn lemma_step_unchanged(
    values: Seq<Internable>,
    c: Constraint,
    fd: Map<usize, Domain>,
    add: spec_fn(u64, u64) -> u64,
    subtract: spec_fn(u64, u64) -> u64,
    multiply: spec_fn(u64, u64) -> u64,
    divide: spec_fn(u64, u64) -> u64,
)
    requires
        !domain_step(values, c, fd, add, subtract, multiply, divide).1,
    ensures
        same_domains(fd, domain_step(values, c, fd, add, subtract, multiply, divide).0),
{
    match c {
        Constraint::Scan { e, a, v } | Constraint::LookupCommit { e, a, v } => {
            let g1 = merged_field(fd, e, Domain::Record);
            let g2 = merged_field(g1, a, Domain::String);
            lemma_unchanged_field(fd, e, Domain::Record);
            lemma_unchanged_field(g1, a, Domain::String);
            lemma_unchanged_field(g2, v, Domain::Unknown);
            lemma_same_domains_trans(fd, g1, g2);
            lemma_same_domains_trans(fd, g2, merged_field(g2, v, Domain::Unknown));
        },
        Constraint::Function { operator, left, right, output } => {
            if is_arithmetic(operator) {
                let g1 = merged_field(fd, left, all_numbers());
                let g2 = merged_field(g1, right, all_numbers());
                let od = function_domain(
                    operator,
                    spec_field_to_domain(values, left, g2),
                    spec_field_to_domain(values, right, g2),
                    add,
                    subtract,
                    multiply,
                    divide,
                );
                lemma_unchanged_field(fd, left, all_numbers());
                lemma_unchanged_field(g1, right, all_numbers());
                lemma_unchanged_field(g2, output, od);
                lemma_same_domains_trans(fd, g1, g2);
                lemma_same_domains_trans(fd, g2, merged_field(g2, output, od));
            } else {
                assert(same_domains(fd, fd));
            }
        },
        Constraint::Filter { comparison, left, right } => {
            let dr = spec_field_to_domain(values, right, fd);
            let dl = spec_field_to_domain(values, left, fd);
            if comparison is Equal {
                lemma_unchanged_field(fd, left, dr);
            } else if is_comparison(comparison) && left is Register && right is Value {
                lemma_unchanged_field(fd, left, comparison_domain(comparison, true, dr));
            } else if is_comparison(comparison) && left is Value && right is Register {
                lemma_unchanged_field(fd, right, comparison_domain(comparison, false, dl));
            } else {
                assert(same_domains(fd, fd));
            }
        },
        _ => {
            assert(same_domains(fd, fd));
        },
    }
}

proof fn lemma_round_congruent(
    values: Seq<Internable>,
    cs: Seq<Constraint>,
    fd1: Map<usize, Domain>,
    fd2: Map<usize, Domain>,
    add: spec_fn(u64, u64) -> u64,
    subtract: spec_fn(u64, u64) -> u64,
    multiply: spec_fn(u64, u64) -> u64,
    divide: spec_fn(u64, u64) -> u64,
)
    requires
        same_domains(fd1, fd2),
    ensures
        domain_round(values, cs, fd1, add, subtract, multiply, divide).1 == domain_round(values, cs, fd2, add, subtract, multiply, divide).1,
        same_domains(
            domain_round(values, cs, fd1, add, subtract, multiply, divide).0,
            domain_round(values, cs, fd2, add, subtract, multiply, divide).0,
        ),
    decreases cs.len(),
{
    if cs.len() > 0 {
        lemma_round_congruent(values, cs.drop_last(), fd1, fd2, add, subtract, multiply, divide);
        lemma_step_congruent(
            values,
            cs.last(),
            domain_round(values, cs.drop_last(), fd1, add, subtract, multiply, divide).0,
            domain_round(values, cs.drop_last(), fd2, add, subtract, multiply, divide).0,
            add,
            subtract,
            multiply,
            divide,
        );
    }
}

proof fn lemma_round_unchanged(
    values: Seq<Internable>,
    cs: Seq<Constraint>,
    fd: Map<usize, Domain>,
    add: spec_fn(u64, u64) -> u64,
    subtract: spec_fn(u64, u64) -> u64,
    multiply: spec_fn(u64, u64) -> u64,
    divide: spec_fn(u64, u64) -> u64,
)
    requires
        !domain_round(values, cs, fd, add, subtract, multiply, divide).1,
    ensures
        same_domains(fd, domain_round(values, cs, fd, add, subtract, multiply, divide).0),
    decreases cs.len(),
{
    if cs.len() > 0 {
        let prev = domain_round(values, cs.drop_last(), fd, add, subtract, multiply, divide);
        lemma_round_unchanged(values, cs.drop_last(), fd, add, subtract, multiply, divide);
        lemma_step_unchanged(values, cs.last(), prev.0, add, subtract, multiply, divide);
        lemma_same_domains_trans(fd, prev.0, domain_step(values, cs.last(), prev.0, add, subtract, multiply, divide).0);
    } else {
        assert(same_domains(fd, fd));
    }
}

/// A sweep that reports no change is a fixed point: it leaves the domain of
/// every register as it was, and sweeping again reports no change and again
/// leaves every domain as it was.  This is why gathering the domains stops
/// at the first quiet sweep.
pub proof fn lemma_quiet_sweep_is_fixed_point(
    values: Seq<Internable>,
    cs: Seq<Constraint>,
    fd: Map<usize, Domain>,
    add: spec_fn(u64, u64) -> u64,
    subtract: spec_fn(u64, u64) -> u64,
    multiply: spec_fn(u64, u64) -> u64,
    divide: spec_fn(u64, u64) -> u64,
)
    requires
        !domain_round(values, cs, fd, add, subtract, multiply, divide).1,
    ensures
        same_domains(fd, domain_round(values, cs, fd, add, subtract, multiply, divide).0),
        !domain_round(
            values,
            cs,
            domain_round(values, cs, fd, add, subtract, multiply, divide).0,
            add,
            subtract,
            multiply,
            divide,
        ).1,
        same_domains(
            domain_round(values, cs, fd, add, subtract, multiply, divide).0,
            domain_round(
                values,
                cs,
                domain_round(values, cs, fd, add, subtract, multiply, divide).0,
                add,
                subtract,
                multiply,
                divide,
            ).0,
        ),
{
    let y = domain_round(values, cs, fd, add, subtract, multiply, divide).0;
    lemma_round_unchanged(values, cs, fd, add, subtract, multiply, divide);
    lemma_round_congruent(values, cs, fd, y, add, subtract, multiply, divide);
    lemma_round_unchanged(values, cs, y, add, subtract, multiply, divide);
}

/// When the sweeps stop because one changed nothing, their domains are a
/// fixed point: sweeping again changes nothing.
pub proof fn lemma_quiet_sweeps(
    values: Seq<Internable>,
    cs: Seq<Constraint>,
    fd: Map<usize, Domain>,
    add: spec_fn(u64, u64) -> u64,
    subtract: spec_fn(u64, u64) -> u64,
    multiply: spec_fn(u64, u64) -> u64,
    divide: spec_fn(u64, u64) -> u64,
    k: nat,
)
    requires
        !sweeps(values, cs, fd, add, subtract, multiply, divide, k).1,
    ensures
        ({
            let y = sweeps(values, cs, fd, add, subtract, multiply, divide, k).0;
            let again = domain_round(values, cs, y, add, subtract, multiply, divide);
            !again.1 && same_domains(y, again.0)
        }),
    decreases k,
{
    let prev = sweeps(values, cs, fd, add, subtract, multiply, divide, (k - 1) as nat);
    if prev.1 {
        lemma_quiet_sweep_is_fixed_point(values, cs, prev.0, add, subtract, multiply, divide);
    } else {
        lemma_quiet_sweeps(values, cs, fd, add, subtract, multiply, divide, (k - 1) as nat);
    }
}

/// Every step of the sweep is defined.
pub open spec fn domain_round_defined(
    values: Seq<Internable>,
    cs: Seq<Constraint>,
    fd: Map<usize, Domain>,
    add: spec_fn(u64, u64) -> u64,
    subtract: spec_fn(u64, u64) -> u64,
    multiply: spec_fn(u64, u64) -> u64,
    divide: spec_fn(u64, u64) -> u64,
) -> bool
    decreases cs.len(),
{
    cs.len() == 0 || (domain_round_defined(
        values,
        cs.drop_last(),
        fd,
        add,
        subtract,
        multiply,
        divide,
    ) && domain_step_defined(
        values,
        cs.last(),
        domain_round(values, cs.drop_last(), fd, add, subtract, multiply, divide).0,
        add,
        subtract,
        multiply,
        divide,
    ))
}

proof fn lemma_round_defined_prefix(
    values: Seq<Internable>,
    cs: Seq<Constraint>,
    i: int,
    fd: Map<usize, Domain>,
    add: spec_fn(u64, u64) -> u64,
    subtract: spec_fn(u64, u64) -> u64,
    multiply: spec_fn(u64, u64) -> u64,
    divide: spec_fn(u64, u64) -> u64,
)
    requires
        0 <= i <= cs.len(),
        domain_round_defined(values, cs, fd, add, subtract, multiply, divide),
    ensures
        domain_round_defined(values, cs.take(i), fd, add, subtract, multiply, divide),
    decreases cs.len(),
{
    if i < cs.len() {
        assert(cs.drop_last().take(i) =~= cs.take(i));
        lemma_round_defined_prefix(values, cs.drop_last(), i, fd, add, subtract, multiply, divide);
    } else {
        assert(cs.take(i) =~= cs);
    }
}

/// Applies an arithmetic function to the domains of its operands.
fn apply_function<A, S, M, D>(
    op: FunctionOp,
    l: &Domain,
    r: &Domain,
    add: &A,
    subtract: &S,
    multiply: &M,
    divide: &D,
) -> (res: Domain) where
    A: Fn(u64, u64) -> u64,
    S: Fn(u64, u64) -> u64,
    M: Fn(u64, u64) -> u64,
    D: Fn(u64, u64) -> u64,

    requires
        is_arithmetic(op),
        arithmetic_defined(*l, *r),
        op is Multiply ==> product_defined(*l, *r),
        well_behaved(*add),
        well_behaved(*subtract),
        well_behaved(*multiply),
        well_behaved(*divide),
    ensures
        res == function_domain(
            op,
            *l,
            *r,
            as_fn(*add),
            as_fn(*subtract),
            as_fn(*multiply),
            as_fn(*divide),
        ),
{
    match op {
        FunctionOp::Add => add_domain(l, r, add),
        FunctionOp::Subtract => subtract_domain(l, r, subtract),
        FunctionOp::Multiply => multiply_domain(l, r, multiply),
        _ => divide_domain(l, r, divide),
    }
}

/// Applies one constraint to the register domains; tells whether a domain changed.
fn apply_domain_step<A, S, M, D>(
    c: &Constraint,
    interner: &Interner,
    field_domains: &mut HashMap<usize, Domain>,
    add: &A,
    subtract: &S,
    multiply: &M,
    divide: &D,
) -> (changed: bool) where
    A: Fn(u64, u64) -> u64,
    S: Fn(u64, u64) -> u64,
    M: Fn(u64, u64) -> u64,
    D: Fn(u64, u64) -> u64,

    requires
        well_behaved(*add),
        well_behaved(*subtract),
        well_behaved(*multiply),
        well_behaved(*divide),
        domain_step_defined(
            interner.values@,
            *c,
            old(field_domains)@,
            as_fn(*add),
            as_fn(*subtract),
            as_fn(*multiply),
            as_fn(*divide),
        ),
    ensures
        (final(field_domains)@, changed) == domain_step(
            interner.values@,
            *c,
            old(field_domains)@,
            as_fn(*add),
            as_fn(*subtract),
            as_fn(*multiply),
            as_fn(*divide),
        ),
{
    let mut changed = false;
    match c {
        Constraint::Scan { e, a, v } | Constraint::LookupCommit { e, a, v } => {
            merge_field_domain(e, field_domains, Domain::Record, &mut changed);
            merge_field_domain(a, field_domains, Domain::String, &mut changed);
            merge_field_domain(v, field_domains, Domain::Unknown, &mut changed);
        },
        Constraint::Function { operator, left, right, output } => {
            if !matches!(operator, FunctionOp::Other) {
                let everything = Domain::Number(Bound::NegativeInfinity, Bound::Infinity);
                merge_field_domain(left, field_domains, everything, &mut changed);
                merge_field_domain(right, field_domains, everything, &mut changed);
                let left_domain = field_to_domain(interner, left, field_domains);
                let right_domain = field_to_domain(interner, right, field_domains);
                let output_domain = apply_function(
                    *operator,
                    &left_domain,
                    &right_domain,
                    add,
                    subtract,
                    multiply,
                    divide,
                );
                merge_field_domain(output, field_domains, output_domain, &mut changed);
            }
        },
        Constraint::Filter { comparison, left, right } => {
            match comparison {
                FilterOp::Equal => {
                    let to_merge = field_to_domain(interner, right, field_domains);
                    merge_field_domain(left, field_domains, to_merge, &mut changed);
                },
                FilterOp::Other => {},
                _ => {
                    if left.is_register() && !right.is_register() {
                        let to_merge = match field_to_domain(interner, right, field_domains) {
                            Domain::Number(start, _) => comparison_range(*comparison, true, start.unwrap()),
                            a => a,
                        };
                        merge_field_domain(left, field_domains, to_merge, &mut changed);
                    } else if !left.is_register() && right.is_register() {
                        let to_merge = match field_to_domain(interner, left, field_domains) {
                            Domain::Number(start, _) => comparison_range(*comparison, false, start.unwrap()),
                            a => a,
                        };
                        merge_field_domain(right, field_domains, to_merge, &mut changed);
                    }
                },
            }
        },
        _ => {},
    }
    changed
}

/// The interval of `comparison_interval`.
fn comparison_range(op: FilterOp, register_left: bool, n: u64) -> (r: Domain)
    requires
        is_comparison(op),
    ensures
        r == comparison_interval(op, register_left, n),
{
    match (op, register_left) {
        (FilterOp::Greater, true) => Domain::Number(Bound::Excluded(n), Bound::Infinity),
        (FilterOp::Greater, false) => Domain::Number(Bound::NegativeInfinity, Bound::Excluded(n)),
        (FilterOp::Less, true) => Domain::Number(Bound::NegativeInfinity, Bound::Excluded(n)),
        (FilterOp::Less, false) => Domain::Number(Bound::Excluded(n), Bound::Infinity),
        (FilterOp::GreaterEqual, true) => Domain::Number(Bound::Included(n), Bound::Infinity),
        (FilterOp::GreaterEqual, false) => Domain::Number(Bound::NegativeInfinity, Bound::Included(n)),
        (FilterOp::LessEqual, true) => Domain::Number(Bound::NegativeInfinity, Bound::Included(n)),
        _ => Domain::Number(Bound::Included(n), Bound::Infinity),
    }
}

/// The tags a field stands for in the gathering of inputs and outputs: its
/// recorded tags, or the single tag 0 when it has none recorded.
pub open spec fn tags_for(m: Map<Field, Seq<u32>>, f: Field) -> Seq<u32> {
    if m.contains_key(f) {
        m[f]
    } else {
        seq![0u32]
    }
}

/// The pair domains after merging `d` into the pair (t, `attribute`) for
/// each tag t of `ts`, in order.
pub open spec fn merge_into_pairs(
    m: Map<(u32, u32), Domain>,
    ts: Seq<u32>,
    attribute: u32,
    d: Domain,
) -> Map<(u32, u32), Domain>
    decreases ts.len(),
{
    if ts.len() == 0 {
        m
    } else {
        let m1 = merge_into_pairs(m, ts.drop_last(), attribute, d);
        m1.insert((ts.last(), attribute), pair_domain(m1, (ts.last(), attribute)).merged(d))
    }
}

/// Every merge of `merge_into_pairs` is defined.
pub open spec fn merge_into_pairs_defined(
    m: Map<(u32, u32), Domain>,
    ts: Seq<u32>,
    attribute: u32,
    d: Domain,
) -> bool
    decreases ts.len(),
{
    ts.len() == 0 || (merge_into_pairs_defined(m, ts.drop_last(), attribute, d) && pair_domain(
        merge_into_pairs(m, ts.drop_last(), attribute, d),
        (ts.last(), attribute),
    ).merge_defined(d))
}

/// The order of stored pairs after storing (t, `attribute`) for each tag
/// t of `ts`, in order.
pub open spec fn with_tag_keys(order: Seq<(u32, u32)>, ts: Seq<u32>, attribute: u32) -> Seq<(u32, u32)>
    decreases ts.len(),
{
    if ts.len() == 0 {
        order
    } else {
        with_key(with_tag_keys(order, ts.drop_last(), attribute), (ts.last(), attribute))
    }
}

/// The domain lists of the pairs, as sequences.
pub open spec fn domain_lists(m: Map<(u32, u32), Vec<Domain>>) -> Map<(u32, u32), Seq<Domain>> {
    m.map_values(|v: Vec<Domain>| v@)
}

/// The domain list of a pair, empty when it has none.
pub open spec fn list_of(m: Map<(u32, u32), Seq<Domain>>, k: (u32, u32)) -> Seq<Domain> {
    if m.contains_key(k) {
        m[k]
    } else {
        Seq::empty()
    }
}

/// The domain lists after appending `d` to the list of (t, `attribute`)
/// for each tag t of `ts`, in order.
pub open spec fn append_to_pairs(
    m: Map<(u32, u32), Seq<Domain>>,
    ts: Seq<u32>,
    attribute: u32,
    d: Domain,
) -> Map<(u32, u32), Seq<Domain>>
    decreases ts.len(),
{
    if ts.len() == 0 {
        m
    } else {
        let m1 = append_to_pairs(m, ts.drop_last(), attribute, d);
        m1.insert((ts.last(), attribute), list_of(m1, (ts.last(), attribute)).push(d))
    }
}

/// The triples (t, `a`, `v`) for the tags t of `ts`, in order.
pub open spec fn tagged_triples(ts: Seq<u32>, a: u32, v: u32) -> Seq<(u32, u32, u32)> {
    ts.map_values(|t: u32| (t, a, v))
}

/// The outputs of removing entities with the tags `ts`: for each tag, the
/// whole entity and its tag.
pub open spec fn entity_removals(ts: Seq<u32>) -> Seq<(u32, u32, u32)>
    decreases ts.len(),
{
    if ts.len() == 0 {
        Seq::empty()
    } else {
        entity_removals(ts.drop_last()).push((ts.last(), 0u32, 0u32)).push(
            (ts.last(), TAG_INTERNED_ID, ts.last()),
        )
    }
}

/// The triple for the `tag` attribute itself, when the attribute is `tag`.
pub open spec fn tag_triple(a: u32, v: u32) -> Seq<(u32, u32, u32)> {
    if a == TAG_INTERNED_ID {
        seq![(0u32, a, v)]
    } else {
        Seq::empty()
    }
}

/// What gathering inputs and outputs has found so far: whether the block
/// scans, its inputs and outputs, and the domains of its inputs and outputs
/// with the order in which their pairs were first met.
pub struct Gathered {
    pub has_scans: bool,
    pub inputs: Seq<(u32, u32, u32)>,
    pub outputs: Seq<(u32, u32, u32)>,
    pub input_domains: Map<(u32, u32), Domain>,
    pub input_order: Seq<(u32, u32)>,
    pub output_domains: Map<(u32, u32), Seq<Domain>>,
    pub output_order: Seq<(u32, u32)>,
}

/// One constraint's contribution: a scan or lookup is an input of each
/// tag of its entity, merging its value's domain into the input domains;
/// inserts and removals are outputs, appending the value's domain or a
/// removal to the output domains; removing an entity removes it and its tag.
pub open spec fn io_step(
    values: Seq<Internable>,
    fd: Map<usize, Domain>,
    tags: Map<Field, Seq<u32>>,
    c: Constraint,
    g: Gathered,
) -> Gathered {
    match c {
        Constraint::Scan { e, a, v } | Constraint::LookupCommit { e, a, v } => {
            let ts = tags_for(tags, e);
            Gathered {
                has_scans: true,
                inputs: g.inputs + tag_triple(a.interned(), v.interned()) + tagged_triples(
                    ts,
                    a.interned(),
                    v.interned(),
                ),
                input_domains: merge_into_pairs(
                    g.input_domains,
                    ts,
                    a.interned(),
                    spec_field_to_domain(values, v, fd),
                ),
                input_order: with_tag_keys(g.input_order, ts, a.interned()),
                ..g
            }
        },
        Constraint::Insert { e, a, v } => {
            let ts = tags_for(tags, e);
            Gathered {
                outputs: g.outputs + tag_triple(a.interned(), v.interned()) + tagged_triples(
                    ts,
                    a.interned(),
                    v.interned(),
                ),
                output_domains: append_to_pairs(
                    g.output_domains,
                    ts,
                    a.interned(),
                    spec_field_to_domain(values, v, fd),
                ),
                output_order: with_tag_keys(g.output_order, ts, a.interned()),
                ..g
            }
        },
        Constraint::Remove { e, a, v } => {
            let ts = tags_for(tags, e);
            Gathered {
                outputs: g.outputs + tag_triple(a.interned(), v.interned()) + tagged_triples(
                    ts,
                    a.interned(),
                    v.interned(),
                ),
                output_domains: append_to_pairs(g.output_domains, ts, a.interned(), Domain::Removed),
                output_order: with_tag_keys(g.output_order, ts, a.interned()),
                ..g
            }
        },
        Constraint::RemoveAttribute { e, a } => {
            let ts = tags_for(tags, e);
            Gathered {
                outputs: g.outputs + tag_triple(a.interned(), 0) + tagged_triples(ts, a.interned(), 0),
                output_domains: append_to_pairs(g.output_domains, ts, a.interned(), Domain::Removed),
                output_order: with_tag_keys(g.output_order, ts, a.interned()),
                ..g
            }
        },
        Constraint::RemoveEntity { e } => {
            let ts = tags_for(tags, e);
            Gathered {
                outputs: g.outputs + entity_removals(ts),
                output_domains: append_to_pairs(g.output_domains, ts, TAG_INTERNED_ID, Domain::Removed),
                output_order: with_tag_keys(g.output_order, ts, TAG_INTERNED_ID),
                ..g
            }
        },
        _ => g,
    }
}

/// The step of `io_step` is defined: values whose domains are taken are
/// held and not null, and the input domain merges are defined.
pub open spec fn io_step_defined(
    values: Seq<Internable>,
    fd: Map<usize, Domain>,
    tags: Map<Field, Seq<u32>>,
    c: Constraint,
    g: Gathered,
) -> bool {
    match c {
        Constraint::Scan { e, a, v } | Constraint::LookupCommit { e, a, v } => {
            let ts = tags_for(tags, e);
            ts.len() > 0 ==> field_defined(values, v) && merge_into_pairs_defined(
                g.input_domains,
                ts,
                a.interned(),
                spec_field_to_domain(values, v, fd),
            )
        },
        Constraint::Insert { e, a, v } => tags_for(tags, e).len() > 0 ==> field_defined(values, v),
        _ => true,
    }
}

/// The gathering over the constraints, in order.
pub open spec fn io_run(
    values: Seq<Internable>,
    fd: Map<usize, Domain>,
    tags: Map<Field, Seq<u32>>,
    cs: Seq<Constraint>,
    g: Gathered,
) -> Gathered
    decreases cs.len(),
{
    if cs.len() == 0 {
        g
    } else {
        io_step(values, fd, tags, cs.last(), io_run(values, fd, tags, cs.drop_last(), g))
    }
}

/// Every step of the gathering is defined.
pub open spec fn io_run_defined(
    values: Seq<Internable>,
    fd: Map<usize, Domain>,
    tags: Map<Field, Seq<u32>>,
    cs: Seq<Constraint>,
    g: Gathered,
) -> bool
    decreases cs.len(),
{
    cs.len() == 0 || (io_run_defined(values, fd, tags, cs.drop_last(), g) && io_step_defined(
        values,
        fd,
        tags,
        cs.last(),
        io_run(values, fd, tags, cs.drop_last(), g),
    ))
}

/// Nothing gathered yet.
pub open spec fn nothing_gathered() -> Gathered {
    Gathered {
        has_scans: false,
        inputs: Seq::empty(),
        outputs: Seq::empty(),
        input_domains: Map::empty(),
        input_order: Seq::empty(),
        output_domains: Map::empty(),
        output_order: Seq::empty(),
    }
}

/// The entity of the last scan, or `default` when there is none.
pub open spec fn last_scan_entity(cs: Seq<Constraint>, default: Field) -> Field
    decreases cs.len(),
{
    if cs.len() == 0 {
        default
    } else {
        match cs.last() {
            Constraint::Scan { e, .. } => e,
            _ => last_scan_entity(cs.drop_last(), default),
        }
    }
}

/// The entity of the last entity removal, or `default` when there is none.
pub open spec fn last_removed_entity(cs: Seq<Constraint>, default: Field) -> Field
    decreases cs.len(),
{
    if cs.len() == 0 {
        default
    } else {
        match cs.last() {
            Constraint::RemoveEntity { e } => e,
            _ => last_removed_entity(cs.drop_last(), default),
        }
    }
}

/// A block is taken for a pulse when it has exactly two constraints, and
/// the entity it scans is the entity it removes.
pub open spec fn looks_like_pulse(cs: Seq<Constraint>) -> bool {
    cs.len() == 2 && last_scan_entity(cs, Field::Value(0)) == last_removed_entity(
        cs,
        Field::Value(1),
    )
}

proof fn lemma_merge_into_pairs_defined_prefix(
    m: Map<(u32, u32), Domain>,
    ts: Seq<u32>,
    j: int,
    attribute: u32,
    d: Domain,
)
    requires
        0 <= j <= ts.len(),
        merge_into_pairs_defined(m, ts, attribute, d),
    ensures
        merge_into_pairs_defined(m, ts.take(j), attribute, d),
    decreases ts.len(),
{
    if j < ts.len() {
        assert(ts.drop_last().take(j) =~= ts.take(j));
        lemma_merge_into_pairs_defined_prefix(m, ts.drop_last(), j, attribute, d);
    } else {
        assert(ts.take(j) =~= ts);
    }
}

proof fn lemma_entity_removals_len(ts: Seq<u32>)
    ensures
        entity_removals(ts).len() == 2 * ts.len(),
    decreases ts.len(),
{
    if ts.len() > 0 {
        lemma_entity_removals_len(ts.drop_last());
    }
}

/// Records the inputs of a scan or lookup whose entity has the tags `ts`
/// and merges the domain of its value into the pair domains.
fn gather_scan_inputs(
    interner: &Interner,
    field_domains: &HashMap<usize, Domain>,
    ts: &Vec<u32>,
    a: u32,
    v: &Field,
    inputs: &mut Vec<(u32, u32, u32)>,
    input_domains: &mut PairMap<Domain>,
)
    requires
        old(input_domains).wf(),
        ts@.len() > 0 ==> field_defined(interner.values@, *v) && merge_into_pairs_defined(
            old(input_domains)@,
            ts@,
            a,
            spec_field_to_domain(interner.values@, *v, field_domains@),
        ),
    ensures
        final(input_domains).wf(),
        final(input_domains).order() == with_tag_keys(old(input_domains).order(), ts@, a),
        final(inputs)@ == old(inputs)@ + tag_triple(a, v.interned()) + tagged_triples(ts@, a, v.interned()),
        final(input_domains)@ == merge_into_pairs(
            old(input_domains)@,
            ts@,
            a,
            spec_field_to_domain(interner.values@, *v, field_domains@),
        ),
{
    let ghost d = spec_field_to_domain(interner.values@, *v, field_domains@);
    let actual_v = v.interned_value();
    if a == TAG_INTERNED_ID {
        inputs.push((0, a, actual_v));
    }
    let ghost base = inputs@;
    assert(base == old(inputs)@ + tag_triple(a, v.interned()));
    let n = ts.len();
    let mut j: usize = 0;
    while j < n
        invariant
            n == ts@.len(),
            0 <= j <= n,
            actual_v == v.interned(),
            ts@.len() > 0 ==> field_defined(interner.values@, *v) && merge_into_pairs_defined(
                old(input_domains)@,
                ts@,
                a,
                d,
            ),
            d == spec_field_to_domain(interner.values@, *v, field_domains@),
            inputs@ == base + tagged_triples(ts@.take(j as int), a, actual_v),
            input_domains@ == merge_into_pairs(old(input_domains)@, ts@.take(j as int), a, d),
            input_domains.wf(),
            input_domains.order() == with_tag_keys(old(input_domains).order(), ts@.take(j as int), a),
        decreases n - j,
    {
        let t = ts[j];
        proof {
            lemma_merge_into_pairs_defined_prefix(old(input_domains)@, ts@, j + 1, a, d);
            assert(ts@.take(j + 1).drop_last() =~= ts@.take(j as int));
        }
        inputs.push((t, a, actual_v));
        merge_tag_domain(interner, input_domains, field_domains, t, a, v);
        assert(tagged_triples(ts@.take(j + 1), a, actual_v) =~= tagged_triples(ts@.take(j as int), a, actual_v).push((t, a, actual_v)));
        j = j + 1;
    }
    assert(ts@.take(n as int) =~= ts@);
}

/// Records the outputs of an insert or removal whose entity has the tags
/// `ts`, appending to the pair domains a removal or else the domain of `v`.
fn gather_outputs(
    interner: &Interner,
    field_domains: &HashMap<usize, Domain>,
    ts: &Vec<u32>,
    a: u32,
    actual_v: u32,
    v: &Field,
    remove: bool,
    outputs: &mut Vec<(u32, u32, u32)>,
    output_domains: &mut PairMap<Vec<Domain>>,
)
    requires
        old(output_domains).wf(),
        !remove && ts@.len() > 0 ==> field_defined(interner.values@, *v),
    ensures
        final(output_domains).wf(),
        final(output_domains).order() == with_tag_keys(old(output_domains).order(), ts@, a),
        final(outputs)@ == old(outputs)@ + tag_triple(a, actual_v) + tagged_triples(ts@, a, actual_v),
        domain_lists(final(output_domains)@) == append_to_pairs(
            domain_lists(old(output_domains)@),
            ts@,
            a,
            if remove {
                Domain::Removed
            } else {
                spec_field_to_domain(interner.values@, *v, field_domains@)
            },
        ),
{
    let ghost d = if remove {
        Domain::Removed
    } else {
        spec_field_to_domain(interner.values@, *v, field_domains@)
    };
    if a == TAG_INTERNED_ID {
        outputs.push((0, a, actual_v));
    }
    let ghost base = outputs@;
    let n = ts.len();
    let mut j: usize = 0;
    while j < n
        invariant
            n == ts@.len(),
            0 <= j <= n,
            !remove && ts@.len() > 0 ==> field_defined(interner.values@, *v),
            d == (if remove {
                Domain::Removed
            } else {
                spec_field_to_domain(interner.values@, *v, field_domains@)
            }),
            base == old(outputs)@ + tag_triple(a, actual_v),
            outputs@ == base + tagged_triples(ts@.take(j as int), a, actual_v),
            domain_lists(output_domains@) == append_to_pairs(
                domain_lists(old(output_domains)@),
                ts@.take(j as int),
                a,
                d,
            ),
            output_domains.wf(),
            output_domains.order() == with_tag_keys(old(output_domains).order(), ts@.take(j as int), a),
        decreases n - j,
    {
        let t = ts[j];
        let ghost before = output_domains@;
        outputs.push((t, a, actual_v));
        merge_output_domain(interner, output_domains, field_domains, t, a, v, remove);
        proof {
            assert(ts@.take(j + 1).drop_last() =~= ts@.take(j as int));
            assert(pair_domains(before, (t, a)) == list_of(domain_lists(before), (t, a)));
            assert(domain_lists(output_domains@) =~= domain_lists(before).insert(
                (t, a),
                list_of(domain_lists(before), (t, a)).push(d),
            ));
        }
        assert(tagged_triples(ts@.take(j + 1), a, actual_v) =~= tagged_triples(ts@.take(j as int), a, actual_v).push((t, a, actual_v)));
        j = j + 1;
    }
    assert(ts@.take(n as int) =~= ts@);
}

/// Records the outputs of removing an entity with the tags `ts`.
fn gather_entity_removal(
    ts: &Vec<u32>,
    outputs: &mut Vec<(u32, u32, u32)>,
    output_domains: &mut PairMap<Vec<Domain>>,
    interner: &Interner,
    field_domains: &HashMap<usize, Domain>,
)
    requires
        old(output_domains).wf(),
    ensures
        final(output_domains).wf(),
        final(output_domains).order() == with_tag_keys(old(output_domains).order(), ts@, TAG_INTERNED_ID),
        final(outputs)@ == old(outputs)@ + entity_removals(ts@),
        domain_lists(final(output_domains)@) == append_to_pairs(
            domain_lists(old(output_domains)@),
            ts@,
            TAG_INTERNED_ID,
            Domain::Removed,
        ),
{
    let n = ts.len();
    let mut j: usize = 0;
    let no_value = Field::Value(0);
    while j < n
        invariant
            n == ts@.len(),
            0 <= j <= n,
            outputs@ == old(outputs)@ + entity_removals(ts@.take(j as int)),
            domain_lists(output_domains@) == append_to_pairs(
                domain_lists(old(output_domains)@),
                ts@.take(j as int),
                TAG_INTERNED_ID,
                Domain::Removed,
            ),
            output_domains.wf(),
            output_domains.order() == with_tag_keys(old(output_domains).order(), ts@.take(j as int), TAG_INTERNED_ID),
        decreases n - j,
    {
        let t = ts[j];
        let ghost before = output_domains@;
        outputs.push((t, 0, 0));
        outputs.push((t, TAG_INTERNED_ID, t));
        merge_output_domain(interner, output_domains, field_domains, t, TAG_INTERNED_ID, &no_value, true);
        proof {
            assert(ts@.take(j + 1).drop_last() =~= ts@.take(j as int));
            assert(pair_domains(before, (t, TAG_INTERNED_ID)) == list_of(domain_lists(before), (t, TAG_INTERNED_ID)));
            assert(domain_lists(output_domains@) =~= domain_lists(before).insert(
                (t, TAG_INTERNED_ID),
                list_of(domain_lists(before), (t, TAG_INTERNED_ID)).push(Domain::Removed),
            ));
        }
        assert(outputs@ =~= old(outputs)@ + entity_removals(ts@.take(j + 1)));
        j = j + 1;
    }
    assert(ts@.take(n as int) =~= ts@);
}

/// The register domains after `k` sweeps, sweeping again only while the
/// last sweep changed a domain, and whether the last sweep changed one
/// (before any sweep: yes).
pub open spec fn sweeps(
    values: Seq<Internable>,
    cs: Seq<Constraint>,
    fd: Map<usize, Domain>,
    add: spec_fn(u64, u64) -> u64,
    subtract: spec_fn(u64, u64) -> u64,
    multiply: spec_fn(u64, u64) -> u64,
    divide: spec_fn(u64, u64) -> u64,
    k: nat,
) -> (Map<usize, Domain>, bool)
    decreases k,
{
    if k == 0 {
        (fd, true)
    } else {
        let prev = sweeps(values, cs, fd, add, subtract, multiply, divide, (k - 1) as nat);
        if prev.1 {
            domain_round(values, cs, prev.0, add, subtract, multiply, divide)
        } else {
            prev
        }
    }
}

/// Every sweep that the analysis reaches is defined.
pub open spec fn sweeps_defined(
    values: Seq<Internable>,
    cs: Seq<Constraint>,
    fd: Map<usize, Domain>,
    add: spec_fn(u64, u64) -> u64,
    subtract: spec_fn(u64, u64) -> u64,
    multiply: spec_fn(u64, u64) -> u64,
    divide: spec_fn(u64, u64) -> u64,
) -> bool {
    forall|k: nat|
        #![trigger sweeps(values, cs, fd, add, subtract, multiply, divide, k)]
        sweeps(values, cs, fd, add, subtract, multiply, divide, k).1 ==> domain_round_defined(
            values,
            cs,
            sweeps(values, cs, fd, add, subtract, multiply, divide, k).0,
            add,
            subtract,
            multiply,
            divide,
        )
}

/// The register domains at which the sweeps settle: the domains after the
/// first sweep that changes nothing (or after `SWEEP_LIMIT` sweeps).
pub open spec fn settled_domains(
    values: Seq<Internable>,
    cs: Seq<Constraint>,
    add: spec_fn(u64, u64) -> u64,
    subtract: spec_fn(u64, u64) -> u64,
    multiply: spec_fn(u64, u64) -> u64,
    divide: spec_fn(u64, u64) -> u64,
) -> Map<usize, Domain> {
    sweeps(values, cs, Map::empty(), add, subtract, multiply, divide, SWEEP_LIMIT as nat).0
}

/// Once a sweep changes nothing, later sweeps leave the domains as they are.
pub proof fn lemma_sweeps_settle(
    values: Seq<Internable>,
    cs: Seq<Constraint>,
    fd: Map<usize, Domain>,
    add: spec_fn(u64, u64) -> u64,
    subtract: spec_fn(u64, u64) -> u64,
    multiply: spec_fn(u64, u64) -> u64,
    divide: spec_fn(u64, u64) -> u64,
    k: nat,
    k2: nat,
)
    requires
        k <= k2,
        !sweeps(values, cs, fd, add, subtract, multiply, divide, k).1 || k == k2,
    ensures
        sweeps(values, cs, fd, add, subtract, multiply, divide, k2) == sweeps(
            values,
            cs,
            fd,
            add,
            subtract,
            multiply,
            divide,
            k,
        ),
    decreases k2 - k,
{
    if k < k2 {
        lemma_sweeps_settle(values, cs, fd, add, subtract, multiply, divide, k, (k2 - 1) as nat);
    }
}

/// The number of sweeps after which the domain analysis stops even if the
/// last sweep changed a domain; no run comes near it.
pub const SWEEP_LIMIT: u64 = 0xffff_ffff_ffff_ffff;

/// What the analysis learns of one block.
pub struct BlockInfo {
    pub id: u32,
    pub has_scans: bool,
    pub constraints: Vec<Constraint>,
    pub field_to_tags: FieldTags,
    pub inputs: Vec<(u32, u32, u32)>,
    pub outputs: Vec<(u32, u32, u32)>,
    pub input_domains: PairMap<Domain>,
    pub output_domains: PairMap<Vec<Domain>>,
    pub is_pulse: bool,
}

impl BlockInfo {
    /// The pair tables keep their order of pairs.
    pub open spec fn wf(&self) -> bool {
        self.input_domains.wf() && self.output_domains.wf()
    }

    /// A block's information before any analysis: its id and constraints, nothing gathered.
    pub fn new(block: &Block) -> (r: BlockInfo)
        ensures
            r.wf(),
            r.input_domains.order() == Seq::<(u32, u32)>::empty(),
            r.output_domains.order() == Seq::<(u32, u32)>::empty(),
            r.id == block.block_id,
            r.constraints@ == block.constraints@,
            !r.has_scans,
            !r.is_pulse,
            r.field_to_tags@ == Map::<Field, Seq<u32>>::empty(),
            r.inputs@ == Seq::<(u32, u32, u32)>::empty(),
            r.outputs@ == Seq::<(u32, u32, u32)>::empty(),
            r.input_domains@ == Map::<(u32, u32), Domain>::empty(),
            r.output_domains@ == Map::<(u32, u32), Vec<Domain>>::empty(),
    {
        let constraints = block.constraints.clone();
        assert(constraints@ =~= block.constraints@);
        BlockInfo {
            id: block.block_id,
            has_scans: false,
            constraints,
            field_to_tags: FieldTags::new(),
            inputs: Vec::new(),
            outputs: Vec::new(),
            input_domains: PairMap::new(),
            output_domains: PairMap::new(),
            is_pulse: false,
        }
    }

    /// Records, for each scan, insert or lookup that gives its entity a
    /// tag, that tag among the entity's tags.
    pub fn gather_tags(&mut self)
        ensures
            final(self).field_to_tags@ == with_tags(old(self).field_to_tags@, old(self).constraints@),
            final(self).id == old(self).id,
            final(self).has_scans == old(self).has_scans,
            final(self).constraints@ == old(self).constraints@,
            final(self).inputs@ == old(self).inputs@,
            final(self).outputs@ == old(self).outputs@,
            final(self).input_domains == old(self).input_domains,
            final(self).output_domains == old(self).output_domains,
            final(self).is_pulse == old(self).is_pulse,
    {
        let ghost start = self.field_to_tags@;
        let n = self.constraints.len();
        let mut i: usize = 0;
        while i < n
            invariant
                n == self.constraints@.len(),
                0 <= i <= n,
                self.constraints@ == old(self).constraints@,
                self.field_to_tags@ == with_tags(start, self.constraints@.take(i as int)),
                self.id == old(self).id,
                self.has_scans == old(self).has_scans,
                self.inputs@ == old(self).inputs@,
                self.outputs@ == old(self).outputs@,
                self.input_domains == old(self).input_domains,
                self.output_domains == old(self).output_domains,
                self.is_pulse == old(self).is_pulse,
            decreases n - i,
        {
            let c = self.constraints[i];
            assert(self.constraints@.take(i + 1).drop_last() =~= self.constraints@.take(i as int));
            match c {
                Constraint::Scan { e, a, v } | Constraint::Insert { e, a, v } | Constraint::LookupCommit { e, a, v } => {
                    let actual_a = a.interned_value();
                    let actual_v = v.interned_value();
                    if actual_a == TAG_INTERNED_ID && actual_v != 0 {
                        self.field_to_tags.push(&e, actual_v);
                    }
                },
                _ => {},
            }
            i = i + 1;
        }
        assert(self.constraints@.take(n as int) =~= self.constraints@);
    }

    /// One sweep of the domain analysis over the block's constraints, in
    /// order: scans make their entity a record and their attribute a
    /// string, arithmetic makes its operands numbers and gives its output
    /// the computed domain, and filters narrow the register they test.
    /// Tells whether a domain changed; the analysis repeats sweeps until
    /// none does.  `add`, `subtract`, `multiply` and `divide` do the
    /// arithmetic on encoded numbers.
    pub fn gather_domains_round<A, S, M, D>(
        &self,
        interner: &Interner,
        field_domains: &mut HashMap<usize, Domain>,
        add: &A,
        subtract: &S,
        multiply: &M,
        divide: &D,
    ) -> (changed: bool) where
        A: Fn(u64, u64) -> u64,
        S: Fn(u64, u64) -> u64,
        M: Fn(u64, u64) -> u64,
        D: Fn(u64, u64) -> u64,

        requires
            well_behaved(*add),
            well_behaved(*subtract),
            well_behaved(*multiply),
            well_behaved(*divide),
            domain_round_defined(
                interner.values@,
                self.constraints@,
                old(field_domains)@,
                as_fn(*add),
                as_fn(*subtract),
                as_fn(*multiply),
                as_fn(*divide),
            ),
        ensures
            (final(field_domains)@, changed) == domain_round(
                interner.values@,
                self.constraints@,
                old(field_domains)@,
                as_fn(*add),
                as_fn(*subtract),
                as_fn(*multiply),
                as_fn(*divide),
            ),
    {
        let ghost start = field_domains@;
        let ghost cs = self.constraints@;
        let ghost (fa, fs, fm, fdv) = (as_fn(*add), as_fn(*subtract), as_fn(*multiply), as_fn(*divide));
        let n = self.constraints.len();
        let mut changed = false;
        let mut i: usize = 0;
        while i < n
            invariant
                n == cs.len(),
                cs == self.constraints@,
                0 <= i <= n,
                fa == as_fn(*add),
                fs == as_fn(*subtract),
                fm == as_fn(*multiply),
                fdv == as_fn(*divide),
                well_behaved(*add),
                well_behaved(*subtract),
                well_behaved(*multiply),
                well_behaved(*divide),
                domain_round_defined(interner.values@, cs, start, fa, fs, fm, fdv),
                (field_domains@, changed) == domain_round(interner.values@, cs.take(i as int), start, fa, fs, fm, fdv),
            decreases n - i,
        {
            proof {
                lemma_round_defined_prefix(interner.values@, cs, i + 1, start, fa, fs, fm, fdv);
                assert(cs.take(i + 1).drop_last() =~= cs.take(i as int));
            }
            let step = apply_domain_step(&self.constraints[i], interner, field_domains, add, subtract, multiply, divide);
            changed = changed || step;
            i = i + 1;
        }
        assert(cs.take(n as int) =~= cs);
        changed
    }

    /// The tags an entity field stands for: its recorded tags, or tag 0.
    fn entity_tags(&self, e: &Field) -> (ts: Vec<u32>)
        ensures
            ts@ == tags_for(self.field_to_tags@, *e),
    {
        match self.field_to_tags.get(e) {
            Some(list) => {
                let ts = list.clone();
                assert(ts@ =~= list@);
                ts
            },
            None => {
                let mut ts = Vec::new();
                ts.push(0);
                assert(ts@ =~= seq![0u32]);
                ts
            },
        }
    }

    /// Gathers the block's inputs and outputs.  The tags are gathered
    /// first; then, with the inputs, outputs and their domains cleared, the
    /// constraints are gone through in order as `io_step` says, taking the
    /// domains of registers from the domain analysis (`gather_domains`).
    /// Last, a block of two constraints that scans the entity it removes is
    /// marked a pulse.
    pub fn gather_inputs_outputs<A, S, M, D>(
        &mut self,
        interner: &Interner,
        add: &A,
        subtract: &S,
        multiply: &M,
        divide: &D,
    ) where
        A: Fn(u64, u64) -> u64,
        S: Fn(u64, u64) -> u64,
        M: Fn(u64, u64) -> u64,
        D: Fn(u64, u64) -> u64,

        requires
            old(self).wf(),
            well_behaved(*add),
            well_behaved(*subtract),
            well_behaved(*multiply),
            well_behaved(*divide),
            sweeps_defined(
                interner.values@,
                old(self).constraints@,
                Map::empty(),
                as_fn(*add),
                as_fn(*subtract),
                as_fn(*multiply),
                as_fn(*divide),
            ),
            io_run_defined(
                interner.values@,
                settled_domains(
                    interner.values@,
                    old(self).constraints@,
                    as_fn(*add),
                    as_fn(*subtract),
                    as_fn(*multiply),
                    as_fn(*divide),
                ),
                with_tags(old(self).field_to_tags@, old(self).constraints@),
                old(self).constraints@,
                nothing_gathered(),
            ),
        ensures
            final(self).wf(),
            final(self).id == old(self).id,
            final(self).constraints@ == old(self).constraints@,
            final(self).field_to_tags@ == with_tags(old(self).field_to_tags@, old(self).constraints@),
            ({
                let g = io_run(
                    interner.values@,
                    settled_domains(
                        interner.values@,
                        old(self).constraints@,
                        as_fn(*add),
                        as_fn(*subtract),
                        as_fn(*multiply),
                        as_fn(*divide),
                    ),
                    final(self).field_to_tags@,
                    old(self).constraints@,
                    nothing_gathered(),
                );
                &&& final(self).has_scans == g.has_scans
                &&& final(self).inputs@ == g.inputs
                &&& final(self).outputs@ == g.outputs
                &&& final(self).input_domains@ == g.input_domains
                &&& final(self).input_domains.order() == g.input_order
                &&& domain_lists(final(self).output_domains@) == g.output_domains
                &&& final(self).output_domains.order() == g.output_order
            }),
            final(self).is_pulse == (old(self).is_pulse || looks_like_pulse(old(self).constraints@)),
    {
        let field_domains = self.gather_domains(interner, add, subtract, multiply, divide);
        self.gather_io(interner, &field_domains);
    }

    /// Gathers the inputs and outputs against settled register domains.
    fn gather_io(&mut self, interner: &Interner, field_domains: &HashMap<usize, Domain>)
        requires
            old(self).wf(),
            io_run_defined(
                interner.values@,
                field_domains@,
                with_tags(old(self).field_to_tags@, old(self).constraints@),
                old(self).constraints@,
                nothing_gathered(),
            ),
        ensures
            final(self).wf(),
            final(self).id == old(self).id,
            final(self).constraints@ == old(self).constraints@,
            final(self).field_to_tags@ == with_tags(old(self).field_to_tags@, old(self).constraints@),
            ({
                let g = io_run(
                    interner.values@,
                    field_domains@,
                    final(self).field_to_tags@,
                    old(self).constraints@,
                    nothing_gathered(),
                );
                &&& final(self).has_scans == g.has_scans
                &&& final(self).inputs@ == g.inputs
                &&& final(self).outputs@ == g.outputs
                &&& final(self).input_domains@ == g.input_domains
                &&& final(self).input_domains.order() == g.input_order
                &&& domain_lists(final(self).output_domains@) == g.output_domains
                &&& final(self).output_domains.order() == g.output_order
            }),
            final(self).is_pulse == (old(self).is_pulse || looks_like_pulse(old(self).constraints@)),
    {
        self.gather_tags();
        self.has_scans = false;
        self.inputs.clear();
        self.outputs.clear();
        self.input_domains.clear();
        self.output_domains.clear();
        let ghost values = interner.values@;
        let ghost fd = field_domains@;
        let ghost tags = self.field_to_tags@;
        let ghost cs = self.constraints@;
        assert(domain_lists(self.output_domains@) =~= Map::<(u32, u32), Seq<Domain>>::empty());
        let n = self.constraints.len();
        let mut i: usize = 0;
        while i < n
            invariant
                n == cs.len(),
                0 <= i <= n,
                cs == self.constraints@,
                cs == old(self).constraints@,
                self.id == old(self).id,
                self.is_pulse == old(self).is_pulse,
                values == interner.values@,
                fd == field_domains@,
                tags == self.field_to_tags@,
                tags == with_tags(old(self).field_to_tags@, old(self).constraints@),
                io_run_defined(values, fd, tags, cs, nothing_gathered()),
                ({
                    let g = io_run(values, fd, tags, cs.take(i as int), nothing_gathered());
                    &&& self.has_scans == g.has_scans
                    &&& self.inputs@ == g.inputs
                    &&& self.outputs@ == g.outputs
                    &&& self.input_domains@ == g.input_domains
                    &&& self.input_domains.order() == g.input_order
                    &&& domain_lists(self.output_domains@) == g.output_domains
                    &&& self.output_domains.order() == g.output_order
                }),
                self.wf(),
            decreases n - i,
        {
            proof {
                lemma_io_run_defined_prefix(values, fd, tags, cs, i + 1);
                assert(cs.take(i + 1).drop_last() =~= cs.take(i as int));
            }
            let c = self.constraints[i];
            match c {
                Constraint::Scan { e, a, v } | Constraint::LookupCommit { e, a, v } => {
                    self.has_scans = true;
                    let ts = self.entity_tags(&e);
                    gather_scan_inputs(
                        interner,
                        field_domains,
                        &ts,
                        a.interned_value(),
                        &v,
                        &mut self.inputs,
                        &mut self.input_domains,
                    );
                },
                Constraint::Insert { e, a, v } => {
                    let ts = self.entity_tags(&e);
                    gather_outputs(
                        interner,
                        field_domains,
                        &ts,
                        a.interned_value(),
                        v.interned_value(),
                        &v,
                        false,
                        &mut self.outputs,
                        &mut self.output_domains,
                    );
                },
                Constraint::Remove { e, a, v } => {
                    let ts = self.entity_tags(&e);
                    gather_outputs(
                        interner,
                        field_domains,
                        &ts,
                        a.interned_value(),
                        v.interned_value(),
                        &v,
                        true,
                        &mut self.outputs,
                        &mut self.output_domains,
                    );
                },
                Constraint::RemoveAttribute { e, a } => {
                    let ts = self.entity_tags(&e);
                    let no_value = Field::Value(0);
                    gather_outputs(
                        interner,
                        field_domains,
                        &ts,
                        a.interned_value(),
                        0,
                        &no_value,
                        true,
                        &mut self.outputs,
                        &mut self.output_domains,
                    );
                },
                Constraint::RemoveEntity { e } => {
                    let ts = self.entity_tags(&e);
                    gather_entity_removal(
                        &ts,
                        &mut self.outputs,
                        &mut self.output_domains,
                        interner,
                        field_domains,
                    );
                },
                _ => {},
            }
            i = i + 1;
        }
        assert(cs.take(n as int) =~= cs);
        // conservative guess for whether the block is a pulse
        if n == 2 {
            let mut scan_e = Field::Value(0);
            let mut remove_e = Field::Value(1);
            let mut k: usize = 0;
            while k < n
                invariant
                    n == cs.len(),
                    cs == self.constraints@,
                    0 <= k <= n,
                    scan_e == last_scan_entity(cs.take(k as int), Field::Value(0)),
                    remove_e == last_removed_entity(cs.take(k as int), Field::Value(1)),
                decreases n - k,
            {
                assert(cs.take(k + 1).drop_last() =~= cs.take(k as int));
                match self.constraints[k] {
                    Constraint::Scan { e, .. } => {
                        scan_e = e;
                    },
                    Constraint::RemoveEntity { e } => {
                        remove_e = e;
                    },
                    _ => {},
                }
                k = k + 1;
            }
            if scan_e == remove_e {
                self.is_pulse = true;
            }
        }
    }

    /// The domains of the block's registers: sweeps of
    /// `gather_domains_round` from no domains at all, repeated until a sweep
    /// changes nothing (or `SWEEP_LIMIT` sweeps have been made).
    pub fn gather_domains<A, S, M, D>(
        &self,
        interner: &Interner,
        add: &A,
        subtract: &S,
        multiply: &M,
        divide: &D,
    ) -> (r: HashMap<usize, Domain>) where
        A: Fn(u64, u64) -> u64,
        S: Fn(u64, u64) -> u64,
        M: Fn(u64, u64) -> u64,
        D: Fn(u64, u64) -> u64,

        requires
            well_behaved(*add),
            well_behaved(*subtract),
            well_behaved(*multiply),
            well_behaved(*divide),
            sweeps_defined(
                interner.values@,
                self.constraints@,
                Map::empty(),
                as_fn(*add),
                as_fn(*subtract),
                as_fn(*multiply),
                as_fn(*divide),
            ),
        ensures
            r@ == settled_domains(
                interner.values@,
                self.constraints@,
                as_fn(*add),
                as_fn(*subtract),
                as_fn(*multiply),
                as_fn(*divide),
            ),
            !sweeps(
                interner.values@,
                self.constraints@,
                Map::empty(),
                as_fn(*add),
                as_fn(*subtract),
                as_fn(*multiply),
                as_fn(*divide),
                SWEEP_LIMIT as nat,
            ).1 ==> {
                let again = domain_round(
                    interner.values@,
                    self.constraints@,
                    r@,
                    as_fn(*add),
                    as_fn(*subtract),
                    as_fn(*multiply),
                    as_fn(*divide),
                );
                !again.1 && same_domains(r@, again.0)
            },
    {
        let ghost values = interner.values@;
        let ghost cs = self.constraints@;
        let ghost (fa, fs, fm, fdv) = (as_fn(*add), as_fn(*subtract), as_fn(*multiply), as_fn(*divide));
        let mut field_domains: HashMap<usize, Domain> = HashMap::new();
        assert(field_domains@ =~= Map::<usize, Domain>::empty());
        let mut changed = true;
        let mut count: u64 = 0;
        while changed && count < SWEEP_LIMIT
            invariant
                values == interner.values@,
                cs == self.constraints@,
                fa == as_fn(*add),
                fs == as_fn(*subtract),
                fm == as_fn(*multiply),
                fdv == as_fn(*divide),
                well_behaved(*add),
                well_behaved(*subtract),
                well_behaved(*multiply),
                well_behaved(*divide),
                sweeps_defined(values, cs, Map::empty(), fa, fs, fm, fdv),
                (field_domains@, changed) == sweeps(values, cs, Map::empty(), fa, fs, fm, fdv, count as nat),
            decreases SWEEP_LIMIT - count,
        {
            proof {
                assert(sweeps(values, cs, Map::empty(), fa, fs, fm, fdv, count as nat).1);
            }
            changed = self.gather_domains_round(interner, &mut field_domains, add, subtract, multiply, divide);
            count = count + 1;
        }
        proof {
            lemma_sweeps_settle(values, cs, Map::empty(), fa, fs, fm, fdv, count as nat, SWEEP_LIMIT as nat);
            if !sweeps(values, cs, Map::empty(), fa, fs, fm, fdv, SWEEP_LIMIT as nat).1 {
                lemma_quiet_sweeps(values, cs, Map::empty(), fa, fs, fm, fdv, SWEEP_LIMIT as nat);
            }
        }
        field_domains
    }
}

proof fn lemma_io_run_defined_prefix(
    values: Seq<Internable>,
    fd: Map<usize, Domain>,
    tags: Map<Field, Seq<u32>>,
    cs: Seq<Constraint>,
    i: int,
)
    requires
        0 <= i <= cs.len(),
        io_run_defined(values, fd, tags, cs, nothing_gathered()),
    ensures
        io_run_defined(values, fd, tags, cs.take(i), nothing_gathered()),
    decreases cs.len(),
{
    if i < cs.len() {
        assert(cs.drop_last().take(i) =~= cs.take(i));
        lemma_io_run_defined_prefix(values, fd, tags, cs.drop_last(), i);
    } else {
        assert(cs.take(i) =~= cs);
    }
}

} // verus!
