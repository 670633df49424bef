use crate::number::Number;
use crate::number::ZERO_BITS;
use crate::trial::Direction;
use vstd::prelude::*;

verus! {

/// Whether `value` is at least as good as `other`.
pub open spec fn no_worse(value: Number, other: Number, direction: Direction) -> bool {
    match direction {
        Direction::Minimize => value.at_most(other),
        Direction::Maximize => other.at_most(value),
    }
}

/// Whether `value` is better than `other`.
pub open spec fn better(value: Number, other: Number, direction: Direction) -> bool {
    match direction {
        Direction::Minimize => value.less(other),
        Direction::Maximize => other.less(value),
    }
}

/// Whether `values0` dominates `values1`: it is worse in no objective and better in at least one.
pub open spec fn pareto_dominates(
    values0: Seq<Number>,
    values1: Seq<Number>,
    directions: Seq<Direction>,
) -> bool {
    &&& forall|i: int|
        0 <= i < directions.len() ==> no_worse(values0[i], values1[i], #[trigger] directions[i])
    &&& exists|i: int|
        0 <= i < directions.len() && better(values0[i], values1[i], #[trigger] directions[i])
}

/// What a completed trial is compared by.
pub struct Standing {
    pub values: Seq<Number>,
    pub feasible: bool,
    pub violation: Number,
}

/// The standing of a trial as it is held while trials are compared.
pub open spec fn standing_view(standing: Option<(&[Number], bool, Number)>) -> Option<Standing> {
    match standing {
        Some((values, feasible, violation)) => Some(
            Standing { values: values@, feasible, violation },
        ),
        None => None,
    }
}

/// Whether the first trial constrained-dominates the second.
///
/// A trial that is not complete dominates nothing and is dominated by every complete one. A
/// feasible trial dominates every infeasible one. Of two infeasible trials the one with the
/// smaller violation dominates, and two feasible trials are compared by their values.
pub open spec fn outranks(
    first: Option<Standing>,
    second: Option<Standing>,
    directions: Seq<Direction>,
) -> bool {
    match (first, second) {
        (None, _) => false,
        (Some(_), None) => true,
        (Some(a), Some(b)) => if a.feasible && b.feasible {
            pareto_dominates(a.values, b.values, directions)
        } else if a.feasible || b.feasible {
            a.feasible
        } else {
            a.violation.less(b.violation)
        },
    }
}

/// No trial dominates itself.
pub proof fn law_dominance_is_irreflexive(a: Option<Standing>, directions: Seq<Direction>)
    ensures
        !outranks(a, a, directions),
{
}

/// Dominance passes on: what dominates a dominator of a trial dominates the trial.
pub proof fn law_dominance_is_transitive(
    a: Option<Standing>,
    b: Option<Standing>,
    c: Option<Standing>,
    directions: Seq<Direction>,
)
    requires
        outranks(a, b, directions),
        outranks(b, c, directions),
    ensures
        outranks(a, c, directions),
{
    if let (Some(x), Some(y), Some(z)) = (a, b, c) {
        if x.feasible && y.feasible && z.feasible {
            let i = choose|i: int|
                0 <= i < directions.len() && better(
                    x.values[i],
                    y.values[i],
                    #[trigger] directions[i],
                );
            assert(no_worse(y.values[i], z.values[i], directions[i]));
            assert(better(x.values[i], z.values[i], directions[i]));
        }
    }
}

/// Two trials do not dominate each other.
pub proof fn law_dominance_is_asymmetric(
    a: Option<Standing>,
    b: Option<Standing>,
    directions: Seq<Direction>,
)
    ensures
        !(outranks(a, b, directions) && outranks(b, a, directions)),
{
    if outranks(a, b, directions) && outranks(b, a, directions) {
        law_dominance_is_transitive(a, b, a, directions);
    }
}

/// Whether `values0` dominates `values1`.
pub fn dominates(values0: &[Number], values1: &[Number], directions: &[Direction]) -> (yes: bool)
    requires
        values0@.len() >= directions@.len(),
        values1@.len() >= directions@.len(),
    ensures
        yes == pareto_dominates(values0@, values1@, directions@),
{
    let mut found = false;
    for i in 0..directions.len()
        invariant
            values0@.len() >= directions@.len(),
            values1@.len() >= directions@.len(),
            forall|k: int|
                0 <= k < i ==> no_worse(values0@[k], values1@[k], #[trigger] directions@[k]),
            found == exists|k: int|
                0 <= k < i && better(values0@[k], values1@[k], #[trigger] directions@[k]),
    {
        let (lesser, greater) = match directions[i] {
            Direction::Minimize => (values0[i], values1[i]),
            Direction::Maximize => (values1[i], values0[i]),
        };
        if !lesser.is_at_most(greater) {
            assert(!no_worse(values0@[i as int], values1@[i as int], directions@[i as int]));
            return false;
        }
        if lesser.is_less(greater) {
            found = true;
            assert(better(values0@[i as int], values1@[i as int], directions@[i as int]));
        }
    }
    found
}

/// Whether two trials are complete and feasible, so that they are compared by their values.
pub open spec fn both_feasible(first: Option<Standing>, second: Option<Standing>) -> bool {
    match (first, second) {
        (Some(a), Some(b)) => a.feasible && b.feasible,
        _ => false,
    }
}

/// Whether the first of two trials constrained-dominates the second.
pub fn constrained_dominates(
    first: &Option<(&[Number], bool, Number)>,
    second: &Option<(&[Number], bool, Number)>,
    directions: &[Direction],
) -> (yes: bool)
    requires
        both_feasible(standing_view(*first), standing_view(*second)) ==> {
            &&& standing_view(*first)->0.values.len() >= directions@.len()
            &&& standing_view(*second)->0.values.len() >= directions@.len()
        },
    ensures
        yes == outranks(standing_view(*first), standing_view(*second), directions@),
{
    let (values0, feasible0, violation0) = match first {
        Some(standing) => *standing,
        None => {
            return false;
        },
    };
    let (values1, feasible1, violation1) = match second {
        Some(standing) => *standing,
        None => {
            return true;
        },
    };
    if feasible0 && feasible1 {
        dominates(values0, values1, directions)
    } else if feasible0 {
        true
    } else if feasible1 {
        false
    } else {
        violation0.is_less(violation1)
    }
}

/// Whether constraints are met: none of their values is above zero.
pub open spec fn constraints_met(values: Seq<Number>) -> bool {
    forall|i: int| 0 <= i < values.len() ==> #[trigger] values[i].at_most(Number { bits: ZERO_BITS })
}

/// The constraint values above zero.
pub open spec fn violations(values: Seq<Number>) -> Seq<Number> {
    values.filter(|value: Number| (Number { bits: ZERO_BITS }).less(value))
}

/// Whether constraints are met.
pub fn is_feasible(values: &[Number]) -> (yes: bool)
    ensures
        yes == constraints_met(values@),
{
    let zero = Number::from_bits(ZERO_BITS);
    for i in 0..values.len()
        invariant
            zero == (Number { bits: ZERO_BITS }),
            forall|k: int| 0 <= k < i ==> #[trigger] values@[k].at_most(zero),
    {
        if !values[i].is_at_most(zero) {
            assert(!values@[i as int].at_most(zero));
            return false;
        }
    }
    true
}

/// The constraint values whose sum is the violation of a trial.
pub fn positive_constraints(values: &[Number]) -> (positive: Vec<Number>)
    ensures
        positive@ == violations(values@),
{
    reveal(Seq::filter);
    let zero = Number::from_bits(ZERO_BITS);
    let mut positive: Vec<Number> = Vec::new();
    assert(values@.take(0) == Seq::<Number>::empty());
    for i in 0..values.len()
        invariant
            zero == (Number { bits: ZERO_BITS }),
            positive@ == violations(values@.take(i as int)),
    {
        reveal(Seq::filter);
        assert(values@.take(i + 1).drop_last() == values@.take(i as int));
        if zero.is_less(values[i]) {
            positive.push(values[i]);
        }
    }
    assert(values@.take(values@.len() as int) == values@);
    positive
}

/// The number with the other sign.
pub open spec fn negated(number: Number) -> Number {
    if number.bits < 0x8000_0000_0000_0000 {
        Number { bits: (number.bits + 0x8000_0000_0000_0000) as u64 }
    } else {
        Number { bits: (number.bits - 0x8000_0000_0000_0000) as u64 }
    }
}

/// The other direction.
pub open spec fn reversed(direction: Direction) -> Direction {
    match direction {
        Direction::Minimize => Direction::Maximize,
        Direction::Maximize => Direction::Minimize,
    }
}

/// Turning an objective round, that is taking its values with the other sign and its other
/// direction, changes no dominance.
pub proof fn law_turning_an_objective_round_changes_no_dominance(
    values0: Seq<Number>,
    values1: Seq<Number>,
    directions: Seq<Direction>,
    i: int,
)
    requires
        0 <= i < directions.len(),
        values0.len() >= directions.len(),
        values1.len() >= directions.len(),
    ensures
        pareto_dominates(
            values0.update(i, negated(values0[i])),
            values1.update(i, negated(values1[i])),
            directions.update(i, reversed(directions[i])),
        ) == pareto_dominates(values0, values1, directions),
{
    let turned0 = values0.update(i, negated(values0[i]));
    let turned1 = values1.update(i, negated(values1[i]));
    let turned = directions.update(i, reversed(directions[i]));
    assert forall|k: int| 0 <= k < directions.len() implies {
        &&& no_worse(turned0[k], turned1[k], #[trigger] turned[k]) == no_worse(
            values0[k],
            values1[k],
            directions[k],
        )
        &&& better(turned0[k], turned1[k], turned[k]) == better(
            values0[k],
            values1[k],
            directions[k],
        )
    } by {}
    if pareto_dominates(values0, values1, directions) {
        let k = choose|k: int|
            0 <= k < directions.len() && better(values0[k], values1[k], #[trigger] directions[k]);
        assert(better(turned0[k], turned1[k], turned[k]));
    }
    if pareto_dominates(turned0, turned1, turned) {
        let k = choose|k: int|
            0 <= k < turned.len() && better(turned0[k], turned1[k], #[trigger] turned[k]);
        assert(better(values0[k], values1[k], directions[k]));
        assert forall|k: int| 0 <= k < directions.len() implies no_worse(
            values0[k],
            values1[k],
            #[trigger] directions[k],
        ) by {
            assert(no_worse(turned0[k], turned1[k], turned[k]));
        }
    }
}

/// Where the values of two trials are equal in all objectives but one, that one decides, taken in
/// its own direction.
pub proof fn law_the_only_difference_decides(
    values0: Seq<Number>,
    values1: Seq<Number>,
    directions: Seq<Direction>,
    i: int,
)
    requires
        0 <= i < directions.len(),
        forall|k: int|
            0 <= k < directions.len() && k != i ==> (#[trigger] values0[k]).equals(values1[k]),
    ensures
        pareto_dominates(values0, values1, directions) <==> match directions[i] {
            Direction::Minimize => values0[i].less(values1[i]),
            Direction::Maximize => values1[i].less(values0[i]),
        },
{
    if pareto_dominates(values0, values1, directions) {
        let k = choose|k: int|
            0 <= k < directions.len() && better(values0[k], values1[k], #[trigger] directions[k]);
        assert(k != i ==> values0[k].equals(values1[k]));
    }
    let decided = match directions[i] {
        Direction::Minimize => values0[i].less(values1[i]),
        Direction::Maximize => values1[i].less(values0[i]),
    };
    if decided {
        assert forall|k: int| 0 <= k < directions.len() implies no_worse(
            values0[k],
            values1[k],
            #[trigger] directions[k],
        ) by {
            assert(k != i ==> values0[k].equals(values1[k]));
        }
        assert(better(values0[i], values1[i], directions[i]));
    }
}

/// An objective in which a trial is worse, or in which one of the two has no number, keeps it from
/// dominating.
pub proof fn law_a_worse_objective_keeps_from_dominating(
    values0: Seq<Number>,
    values1: Seq<Number>,
    directions: Seq<Direction>,
    i: int,
)
    requires
        0 <= i < directions.len(),
        match directions[i] {
            Direction::Minimize => !values0[i].at_most(values1[i]),
            Direction::Maximize => !values1[i].at_most(values0[i]),
        },
    ensures
        !pareto_dominates(values0, values1, directions),
{
    assert(!no_worse(values0[i], values1[i], directions[i]));
}

/// An objective that says nothing against it lets dominance be: where a trial dominates without
/// the last objective and is not worse in it, it dominates with it.
pub proof fn law_dominance_is_kept_by_objectives_that_are_not_worse(
    values0: Seq<Number>,
    values1: Seq<Number>,
    directions: Seq<Direction>,
)
    requires
        directions.len() > 0,
    ensures
        ({
            let last = directions.len() - 1;
            let not_worse = match directions[last] {
                Direction::Minimize => values0[last].at_most(values1[last]),
                Direction::Maximize => values1[last].at_most(values0[last]),
            };
            pareto_dominates(values0, values1, directions.take(last)) && not_worse
                ==> pareto_dominates(values0, values1, directions)
        }),
{
    let last = directions.len() - 1;
    let fewer = directions.take(last);
    let not_worse = match directions[last] {
        Direction::Minimize => values0[last].at_most(values1[last]),
        Direction::Maximize => values1[last].at_most(values0[last]),
    };
    if pareto_dominates(values0, values1, fewer) && not_worse {
        let i = choose|i: int|
            0 <= i < fewer.len() && better(values0[i], values1[i], #[trigger] fewer[i]);
        assert(better(values0[i], values1[i], directions[i]));
        assert forall|k: int| 0 <= k < directions.len() implies no_worse(
            values0[k],
            values1[k],
            #[trigger] directions[k],
        ) by {
            if k < last {
                assert(no_worse(values0[k], values1[k], fewer[k]));
            }
        }
    }
}

/// Dominance in full: nowhere worse, and somewhere better, each objective taken in its direction.
pub proof fn law_dominance_takes_each_objective_in_its_direction(
    values0: Seq<Number>,
    values1: Seq<Number>,
    directions: Seq<Direction>,
)
    ensures
        pareto_dominates(values0, values1, directions) <==> {
            &&& forall|i: int|
                0 <= i < directions.len() && (#[trigger] directions[i]) == Direction::Minimize
                    ==> values0[i].at_most(values1[i])
            &&& forall|i: int|
                0 <= i < directions.len() && (#[trigger] directions[i]) == Direction::Maximize
                    ==> values1[i].at_most(values0[i])
            &&& exists|i: int|
                0 <= i < directions.len() && {
                    ||| (#[trigger] directions[i]) == Direction::Minimize && values0[i].less(
                        values1[i],
                    )
                    ||| directions[i] == Direction::Maximize && values1[i].less(values0[i])
                }
        },
{
    if pareto_dominates(values0, values1, directions) {
        let i = choose|i: int|
            0 <= i < directions.len() && better(values0[i], values1[i], #[trigger] directions[i]);
        assert(directions[i] == Direction::Minimize || directions[i] == Direction::Maximize);
    }
    if {
        &&& forall|i: int|
            0 <= i < directions.len() && (#[trigger] directions[i]) == Direction::Minimize
                ==> values0[i].at_most(values1[i])
        &&& forall|i: int|
            0 <= i < directions.len() && (#[trigger] directions[i]) == Direction::Maximize
                ==> values1[i].at_most(values0[i])
        &&& exists|i: int|
            0 <= i < directions.len() && {
                ||| (#[trigger] directions[i]) == Direction::Minimize && values0[i].less(
                    values1[i],
                )
                ||| directions[i] == Direction::Maximize && values1[i].less(values0[i])
            }
    } {
        let i = choose|i: int|
            0 <= i < directions.len() && {
                ||| (#[trigger] directions[i]) == Direction::Minimize && values0[i].less(
                    values1[i],
                )
                ||| directions[i] == Direction::Maximize && values1[i].less(values0[i])
            };
        assert(better(values0[i], values1[i], directions[i]));
    }
}

/// The rules of constrained dominance. A trial that is not complete dominates nothing, and is
/// dominated by every complete one. A feasible trial dominates every infeasible one, and is
/// dominated by none. Of two infeasible ones the smaller violation dominates, whatever their
/// values. Two feasible ones are compared by their values, whatever their violations.
pub proof fn law_constraints_come_before_values(
    a: Standing,
    b: Standing,
    any: Option<Standing>,
    directions: Seq<Direction>,
)
    ensures
        !outranks(None, any, directions),
        outranks(Some(a), None, directions),
        a.feasible && !b.feasible ==> outranks(Some(a), Some(b), directions) && !outranks(
            Some(b),
            Some(a),
            directions,
        ),
        !a.feasible && !b.feasible ==> (outranks(Some(a), Some(b), directions)
            <==> a.violation.less(b.violation)),
        a.feasible && b.feasible ==> (outranks(Some(a), Some(b), directions)
            <==> pareto_dominates(a.values, b.values, directions)),
{
}

/// A trial with one more constraint is feasible if it was and the constraint is not above zero: its
/// encoding is that of a zero or of a negative number. A constraint above zero is one more term of
/// the violation, and no other is.
pub proof fn law_constraints_count_one_by_one(values: Seq<Number>, value: Number)
    ensures
        constraints_met(Seq::empty()),
        violations(Seq::empty()) == Seq::<Number>::empty(),
        constraints_met(values.push(value)) <==> constraints_met(values) && (value.bits == 0
            || 0x8000_0000_0000_0000 <= value.bits <= 0xfff0_0000_0000_0000),
        violations(values.push(value)) == if 0 < value.bits <= 0x7ff0_0000_0000_0000 {
            violations(values).push(value)
        } else {
            violations(values)
        },
{
    reveal(Seq::filter);
    let more = values.push(value);
    assert(more.drop_last() =~= values);
    assert(violations(Seq::empty()) =~= Seq::<Number>::empty());
    if constraints_met(more) {
        assert forall|i: int| 0 <= i < values.len() implies #[trigger] values[i].at_most(
            Number { bits: ZERO_BITS },
        ) by {
            assert(more[i].at_most(Number { bits: ZERO_BITS }));
        }
        assert(more[values.len() as int].at_most(Number { bits: ZERO_BITS }));
    }
}

/// What a complete trial is compared by is what is held of it, and nothing of one that is not.
pub proof fn law_standings_are_what_is_held(values: &[Number], feasible: bool, violation: Number)
    ensures
        standing_view(Some((values, feasible, violation))) == Some(
            Standing { values: values@, feasible, violation },
        ),
        standing_view(None) is None,
{
}

} // verus!
