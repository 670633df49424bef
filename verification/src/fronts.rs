use crate::dominance::constrained_dominates;
use crate::dominance::law_dominance_is_asymmetric;
use crate::dominance::law_dominance_is_irreflexive;
use crate::dominance::law_dominance_is_transitive;
use crate::dominance::outranks;
use crate::dominance::standing_view;
use crate::dominance::Standing;
use crate::number::Number;
use crate::trial::Direction;
use vstd::prelude::*;

verus! {

/// The standings of all trials of a population.
pub open spec fn standings_view(standings: Seq<Option<(&[Number], bool, Number)>>) -> Seq<
    Option<Standing>,
> {
    standings.map_values(|standing: Option<(&[Number], bool, Number)>| standing_view(standing))
}

/// The positions `0, 1, .., n - 1`.
pub open spec fn positions(n: nat) -> Seq<usize> {
    Seq::new(n, |i: int| i as usize)
}

/// Whether no trial at a position in `pending` dominates the one at `x`.
pub open spec fn undominated(
    standings: Seq<Option<Standing>>,
    directions: Seq<Direction>,
    pending: Seq<usize>,
    x: usize,
) -> bool {
    forall|k: int|
        0 <= k < pending.len() ==> !outranks(
            standings[#[trigger] pending[k] as int],
            standings[x as int],
            directions,
        )
}

/// The positions that no trial at a position in `pending` dominates.
pub open spec fn undominated_set(
    standings: Seq<Option<Standing>>,
    directions: Seq<Direction>,
    pending: Seq<usize>,
) -> Set<usize> {
    Set::new(|x: usize| undominated(standings, directions, pending, x))
}

/// Takes the members of `free` out of `pending`, and gives them and what is left.
///
/// Slots are visited from `from` on. A slot whose position is taken is filled with the position
/// from the last slot, which is then visited in its place.
pub open spec fn peel(free: Set<usize>, pending: Seq<usize>, from: int) -> (Seq<usize>, Seq<usize>)
    decreases pending.len() + pending.len() - from,
{
    if from < 0 || from >= pending.len() {
        (Seq::empty(), pending)
    } else if free.contains(pending[from]) {
        let (taken, rest) = peel(free, pending.update(from, pending.last()).drop_last(), from);
        (seq![pending[from]] + taken, rest)
    } else {
        peel(free, pending, from + 1)
    }
}

/// The fronts of the trials at the positions in `pending`, best first.
///
/// The first front holds those that none of the others dominates; the next fronts are those of
/// what is left without it.
pub open spec fn fronts(
    standings: Seq<Option<Standing>>,
    directions: Seq<Direction>,
    pending: Seq<usize>,
) -> Seq<Seq<usize>>
    decreases pending.len(),
{
    let (front, rest) = peel(undominated_set(standings, directions, pending), pending, 0);
    if front.len() == 0 || rest.len() >= pending.len() {
        Seq::empty()
    } else {
        seq![front] + fronts(standings, directions, rest)
    }
}

/// The members of `live` that dominate `x`.
spec fn dominators(
    standings: Seq<Option<Standing>>,
    directions: Seq<Direction>,
    live: Set<usize>,
    x: usize,
) -> Set<usize> {
    live.filter(|y: usize| outranks(standings[y as int], standings[x as int], directions))
}

spec fn below(n: nat) -> Set<usize> {
    Set::new(|y: usize| y < n)
}

proof fn lemma_below_finite(n: nat)
    requires
        n <= usize::MAX,
    ensures
        below(n).finite(),
        below(n).len() == n,
    decreases n,
{
    if n == 0 {
        assert(below(n) == Set::<usize>::empty());
    } else {
        lemma_below_finite((n - 1) as nat);
        assert(below(n) == below((n - 1) as nat).insert((n - 1) as usize));
    }
}

/// Whether the pair of `a` and `b` comes before the pair of `i` and `j`, `i` below `j`, in the
/// order in which pairs are compared.
spec fn compared(i: int, j: int, a: int, b: int) -> bool {
    ||| a < b && (a < i || a == i && b < j)
    ||| b < a && (b < i || b == i && a < j)
}

spec fn compared_dominators(
    standings: Seq<Option<Standing>>,
    directions: Seq<Direction>,
    i: int,
    j: int,
    x: usize,
) -> Set<usize> {
    Set::new(
        |y: usize|
            y < standings.len() && compared(i, j, x as int, y as int) && outranks(
                standings[y as int],
                standings[x as int],
                directions,
            ),
    )
}

spec fn tallied(
    standings: Seq<Option<Standing>>,
    directions: Seq<Direction>,
    i: int,
    j: int,
    counts: Seq<usize>,
    lists: Seq<Vec<usize>>,
) -> bool {
    &&& counts.len() == standings.len()
    &&& lists.len() == standings.len()
    &&& forall|x: usize|
        x < standings.len() ==> #[trigger] counts[x as int] == compared_dominators(
            standings,
            directions,
            i,
            j,
            x,
        ).len()
    &&& forall|x: usize, y: usize|
        x < standings.len() ==> (#[trigger] lists[x as int]@.contains(y) <==> y < standings.len()
            && compared(i, j, x as int, y as int) && outranks(
            standings[x as int],
            standings[y as int],
            directions,
        ))
    &&& forall|x: usize| x < standings.len() ==> (#[trigger] lists[x as int])@.no_duplicates()
}

proof fn lemma_compared_finite(
    standings: Seq<Option<Standing>>,
    directions: Seq<Direction>,
    i: int,
    j: int,
    x: usize,
)
    requires
        standings.len() <= usize::MAX,
        x < standings.len(),
    ensures
        compared_dominators(standings, directions, i, j, x).finite(),
        compared_dominators(standings, directions, i, j, x).len() < standings.len(),
{
    let n = standings.len();
    lemma_below_finite(n);
    let others = below(n).remove(x);
    assert(compared_dominators(standings, directions, i, j, x).subset_of(others));
    vstd::set_lib::lemma_len_subset(
        compared_dominators(standings, directions, i, j, x),
        others,
    );
}

/// Compares all pairs: how many trials dominate each one, and which ones it dominates.
fn tally(
    standings: &Vec<Option<(&[Number], bool, Number)>>,
    directions: &[Direction],
) -> (counted: (Vec<usize>, Vec<Vec<usize>>))
    requires
        forall|x: int|
            0 <= x < standings@.len() ==> (standing_view(#[trigger] standings@[x]) matches Some(s)
                ==> s.values.len() >= directions@.len()),
    ensures
        tallied(
            standings_view(standings@),
            directions@,
            standings@.len() as int,
            0,
            counted.0@,
            counted.1@,
        ),
{
    let n = standings.len();
    let ghost views = standings_view(standings@);
    let mut counts: Vec<usize> = Vec::new();
    let mut lists: Vec<Vec<usize>> = Vec::new();
    for k in 0..n
        invariant
            counts@.len() == k,
            lists@.len() == k,
            forall|x: int| 0 <= x < k ==> counts@[x] == 0,
            forall|x: int| 0 <= x < k ==> (#[trigger] lists@[x])@.len() == 0,
    {
        counts.push(0);
        lists.push(Vec::new());
    }
    proof {
        assert forall|x: usize| x < n implies #[trigger] compared_dominators(
            views,
            directions@,
            0,
            0,
            x,
        ).len() == 0 by {
            assert(compared_dominators(views, directions@, 0, 0, x) == Set::<usize>::empty());
        }
    }
    for i in 0..n
        invariant
            n == standings@.len(),
            views == standings_view(standings@),
            forall|x: int|
                0 <= x < standings@.len() ==> (standing_view(
                    #[trigger] standings@[x],
                ) matches Some(s) ==> s.values.len() >= directions@.len()),
            tallied(views, directions@, i as int, 0, counts@, lists@),
    {
        proof {
            lemma_same_pairs(views, directions@, i as int, 0, i as int, i + 1, counts@, lists@);
        }
        for j in (i + 1)..n
            invariant
                i < n,
                n == standings@.len(),
                views == standings_view(standings@),
                forall|x: int|
                    0 <= x < standings@.len() ==> (standing_view(
                        #[trigger] standings@[x],
                    ) matches Some(s) ==> s.values.len() >= directions@.len()),
                tallied(views, directions@, i as int, j as int, counts@, lists@),
        {
            let ghost counts0 = counts@;
            let ghost lists0 = lists@;
            proof {
                law_dominance_is_asymmetric(views[i as int], views[j as int], directions@);
                lemma_compared_finite(views, directions@, i as int, j as int, i);
                lemma_compared_finite(views, directions@, i as int, j as int, j);
                lemma_compared_finite(views, directions@, i as int, j + 1, i);
                lemma_compared_finite(views, directions@, i as int, j + 1, j);
                assert(counts@[i as int] == counts@[i as int]);
                assert(counts@[j as int] == counts@[j as int]);
            }
            if constrained_dominates(&standings[i], &standings[j], directions) {
                proof {
                    assert(compared_dominators(views, directions@, i as int, j + 1, j)
                        == compared_dominators(views, directions@, i as int, j as int, j).insert(i));
                }
                lists[i].push(j);
                counts[j] = counts[j] + 1;
                proof {
                    lemma_pair_counted(
                        views,
                        directions@,
                        i,
                        j,
                        i,
                        j,
                        counts0,
                        lists0,
                        counts@,
                        lists@,
                    );
                }
            } else if constrained_dominates(&standings[j], &standings[i], directions) {
                proof {
                    assert(compared_dominators(views, directions@, i as int, j + 1, i)
                        == compared_dominators(views, directions@, i as int, j as int, i).insert(j));
                }
                lists[j].push(i);
                counts[i] = counts[i] + 1;
                proof {
                    lemma_pair_counted(
                        views,
                        directions@,
                        i,
                        j,
                        j,
                        i,
                        counts0,
                        lists0,
                        counts@,
                        lists@,
                    );
                }
            } else {
                proof {
                    lemma_same_pairs(
                        views,
                        directions@,
                        i as int,
                        j as int,
                        i as int,
                        j + 1,
                        counts@,
                        lists@,
                    );
                }
            }
        }
        proof {
            lemma_same_pairs(views, directions@, i as int, n as int, i + 1, 0, counts@, lists@);
        }
    }
    (counts, lists)
}

/// A tally stays one while no further pair with a dominating member is counted as compared.
proof fn lemma_same_pairs(
    standings: Seq<Option<Standing>>,
    directions: Seq<Direction>,
    i: int,
    j: int,
    i2: int,
    j2: int,
    counts: Seq<usize>,
    lists: Seq<Vec<usize>>,
)
    requires
        tallied(standings, directions, i, j, counts, lists),
        forall|x: usize, y: usize|
            x < standings.len() && y < standings.len() && #[trigger] outranks(
                standings[x as int],
                standings[y as int],
                directions,
            ) ==> (compared(i, j, x as int, y as int) <==> compared(i2, j2, x as int, y as int)),
    ensures
        tallied(standings, directions, i2, j2, counts, lists),
{
    assert forall|x: usize| x < standings.len() implies #[trigger] counts[x as int]
        == compared_dominators(standings, directions, i2, j2, x).len() by {
        assert forall|y: usize|
            y < standings.len() && outranks(
                standings[y as int],
                standings[x as int],
                directions,
            ) implies (compared(i, j, x as int, y as int) <==> compared(
            i2,
            j2,
            x as int,
            y as int,
        )) by {
            assert(compared(i, j, y as int, x as int) <==> compared(i2, j2, y as int, x as int));
        }
        assert(compared_dominators(standings, directions, i2, j2, x) =~= compared_dominators(
            standings,
            directions,
            i,
            j,
            x,
        ));
    }
    assert forall|x: usize, y: usize| x < standings.len() implies (
    #[trigger] lists[x as int]@.contains(y) <==> y < standings.len() && compared(
        i2,
        j2,
        x as int,
        y as int,
    ) && outranks(standings[x as int], standings[y as int], directions)) by {
        assert(lists[x as int]@.contains(y) <==> y < standings.len() && compared(
            i,
            j,
            x as int,
            y as int,
        ) && outranks(standings[x as int], standings[y as int], directions));
    }
}

/// Counts one compared pair, in which `winner` dominates `loser`.
proof fn lemma_pair_counted(
    standings: Seq<Option<Standing>>,
    directions: Seq<Direction>,
    i: usize,
    j: usize,
    winner: usize,
    loser: usize,
    counts: Seq<usize>,
    lists: Seq<Vec<usize>>,
    counts2: Seq<usize>,
    lists2: Seq<Vec<usize>>,
)
    requires
        standings.len() <= usize::MAX,
        i < j < standings.len(),
        (winner == i && loser == j) || (winner == j && loser == i),
        outranks(standings[winner as int], standings[loser as int], directions),
        tallied(standings, directions, i as int, j as int, counts, lists),
        counts[loser as int] < usize::MAX,
        counts2 == counts.update(loser as int, (counts[loser as int] + 1) as usize),
        lists2.len() == lists.len(),
        lists2[winner as int]@ == lists[winner as int]@.push(loser),
        forall|x: int| 0 <= x < lists.len() && x != winner ==> #[trigger] lists2[x] == lists[x],
    ensures
        tallied(standings, directions, i as int, j + 1, counts2, lists2),
{
    law_dominance_is_asymmetric(standings[i as int], standings[j as int], directions);
    assert forall|x: usize| x < standings.len() implies #[trigger] counts2[x as int]
        == compared_dominators(standings, directions, i as int, j + 1, x).len() by {
        let before = compared_dominators(standings, directions, i as int, j as int, x);
        let after = compared_dominators(standings, directions, i as int, j + 1, x);
        lemma_compared_finite(standings, directions, i as int, j as int, x);
        assert(counts[x as int] == before.len());
        if x == loser {
            assert(after =~= before.insert(winner));
        } else {
            assert(after =~= before);
        }
    }
    assert forall|x: usize, y: usize| x < standings.len() implies (
    #[trigger] lists2[x as int]@.contains(y) <==> y < standings.len() && compared(
        i as int,
        j + 1,
        x as int,
        y as int,
    ) && outranks(standings[x as int], standings[y as int], directions)) by {
        let before = lists[x as int]@;
        assert(before.contains(y) <==> y < standings.len() && compared(
            i as int,
            j as int,
            x as int,
            y as int,
        ) && outranks(standings[x as int], standings[y as int], directions));
        if x == winner {
            let after = before.push(loser);
            assert(after[before.len() as int] == loser);
            if before.contains(y) {
                let k = choose|k: int| 0 <= k < before.len() && before[k] == y;
                assert(after[k] == y);
            }
            assert(after.contains(y) <==> before.contains(y) || y == loser);
        }
    }
    assert forall|x: usize| x < standings.len() implies (
    #[trigger] lists2[x as int])@.no_duplicates() by {
        assert(lists[x as int]@.no_duplicates());
        if x == winner {
            assert(!lists[x as int]@.contains(loser));
        }
    }
}

/// What [`peel`] takes and leaves: together they are what was pending, the taken are free and,
/// from the first visited slot on, the left are not.
proof fn lemma_peel(free: Set<usize>, pending: Seq<usize>, from: int)
    requires
        0 <= from <= pending.len(),
        pending.no_duplicates(),
        forall|k: int| 0 <= k < from ==> !free.contains(#[trigger] pending[k]),
    ensures
        ({
            let (taken, rest) = peel(free, pending, from);
            &&& taken.len() + rest.len() == pending.len()
            &&& taken.no_duplicates()
            &&& rest.no_duplicates()
            &&& forall|x: usize|
                #[trigger] taken.contains(x) <==> pending.contains(x) && free.contains(x)
            &&& forall|x: usize|
                #[trigger] rest.contains(x) <==> pending.contains(x) && !free.contains(x)
        }),
    decreases pending.len() + pending.len() - from,
{
    let (taken, rest) = peel(free, pending, from);
    if from >= pending.len() {
        assert forall|x: usize| pending.contains(x) implies !free.contains(x) by {
            let k = choose|k: int| 0 <= k < pending.len() && pending[k] == x;
            assert(!free.contains(pending[k]));
        }
        assert(taken.len() == 0);
    } else if free.contains(pending[from]) {
        let x0 = pending[from];
        let shorter = pending.update(from, pending.last()).drop_last();
        assert forall|x: usize| #[trigger] shorter.contains(x) <==> pending.contains(x) && x
            != x0 by {
            if shorter.contains(x) {
                let k = choose|k: int| 0 <= k < shorter.len() && shorter[k] == x;
                if k == from {
                    assert(pending[pending.len() - 1] == x);
                } else {
                    assert(pending[k] == x);
                }
            }
            if pending.contains(x) && x != x0 {
                let k = choose|k: int| 0 <= k < pending.len() && pending[k] == x;
                if k == pending.len() - 1 {
                    assert(shorter[from] == x);
                } else {
                    assert(shorter[k] == x);
                }
            }
        }
        assert(shorter.no_duplicates());
        assert forall|k: int| 0 <= k < from implies !free.contains(#[trigger] shorter[k]) by {
            assert(shorter[k] == pending[k]);
        }
        lemma_peel(free, shorter, from);
        let (taken2, rest2) = peel(free, shorter, from);
        assert(taken == seq![x0] + taken2);
        assert(!taken2.contains(x0));
        assert forall|x: usize| #[trigger] taken.contains(x) <==> taken2.contains(x) || x
            == x0 by {
            assert(taken[0] == x0);
            if taken2.contains(x) {
                let k = choose|k: int| 0 <= k < taken2.len() && taken2[k] == x;
                assert(taken[k + 1] == x);
            }
        }
        assert(pending.contains(x0));
    } else {
        lemma_peel(free, pending, from + 1);
    }
}

/// Some member of a set of trials is dominated by no member of it.
proof fn lemma_undominated_exists(
    standings: Seq<Option<Standing>>,
    directions: Seq<Direction>,
    members: Set<usize>,
) -> (x: usize)
    requires
        members.finite(),
        members.len() > 0,
    ensures
        members.contains(x),
        forall|y: usize|
            members.contains(y) ==> !#[trigger] outranks(
                standings[y as int],
                standings[x as int],
                directions,
            ),
    decreases members.len(),
{
    let a = members.choose();
    law_dominance_is_irreflexive(standings[a as int], directions);
    let others = members.remove(a);
    if others.len() == 0 {
        assert forall|y: usize| members.contains(y) implies !#[trigger] outranks(
            standings[y as int],
            standings[a as int],
            directions,
        ) by {
            if y != a {
                assert(others.contains(y));
                others.lemma_len0_is_empty();
            }
        }
        a
    } else {
        let m = lemma_undominated_exists(standings, directions, others);
        if outranks(standings[a as int], standings[m as int], directions) {
            assert forall|y: usize| members.contains(y) implies !#[trigger] outranks(
                standings[y as int],
                standings[a as int],
                directions,
            ) by {
                if outranks(standings[y as int], standings[a as int], directions) {
                    law_dominance_is_transitive(
                        standings[y as int],
                        standings[a as int],
                        standings[m as int],
                        directions,
                    );
                    assert(others.contains(y));
                }
            }
            a
        } else {
            assert forall|y: usize| members.contains(y) implies !#[trigger] outranks(
                standings[y as int],
                standings[m as int],
                directions,
            ) by {
                if y != a {
                    assert(others.contains(y));
                }
            }
            m
        }
    }
}

/// One round: the front of what is pending, and what it leaves.
proof fn lemma_round(
    standings: Seq<Option<Standing>>,
    directions: Seq<Direction>,
    pending: Seq<usize>,
)
    requires
        pending.no_duplicates(),
        pending.len() > 0,
    ensures
        ({
            let (front, rest) = peel(undominated_set(standings, directions, pending), pending, 0);
            &&& front.len() > 0
            &&& front.len() + rest.len() == pending.len()
            &&& front.no_duplicates()
            &&& rest.no_duplicates()
            &&& fronts(standings, directions, pending) == seq![front] + fronts(
                standings,
                directions,
                rest,
            )
            &&& forall|x: usize|
                #[trigger] front.contains(x) <==> pending.contains(x) && undominated(
                    standings,
                    directions,
                    pending,
                    x,
                )
            &&& forall|x: usize|
                #[trigger] rest.contains(x) <==> pending.contains(x) && !undominated(
                    standings,
                    directions,
                    pending,
                    x,
                )
        }),
{
    let free = undominated_set(standings, directions, pending);
    lemma_peel(free, pending, 0);
    let (front, rest) = peel(free, pending, 0);
    pending.unique_seq_to_set();
    let x = lemma_undominated_exists(standings, directions, pending.to_set());
    assert(pending.contains(x));
    assert forall|k: int| 0 <= k < pending.len() implies !outranks(
        standings[#[trigger] pending[k] as int],
        standings[x as int],
        directions,
    ) by {
        assert(pending.to_set().contains(pending[k]));
    }
    assert(undominated(standings, directions, pending, x));
    assert(free.contains(x));
    assert(front.contains(x));
}

/// Takes out of `pending` the positions whose count is zero.
fn take_undominated(
    counts: &Vec<usize>,
    pending: &mut Vec<usize>,
    Ghost(free): Ghost<Set<usize>>,
) -> (taken: Vec<usize>)
    requires
        forall|k: int|
            0 <= k < old(pending)@.len() ==> (#[trigger] old(pending)@[k]) < counts@.len(),
        forall|k: int|
            0 <= k < old(pending)@.len() ==> (free.contains(#[trigger] old(pending)@[k]) <==>
                counts@[old(pending)@[k] as int] == 0),
    ensures
        (taken@, final(pending)@) == peel(free, old(pending)@, 0),
{
    let mut taken: Vec<usize> = Vec::new();
    let mut i: usize = 0;
    let ghost start = pending@;
    while i < pending.len()
        invariant
            i <= pending@.len(),
            forall|k: int| 0 <= k < pending@.len() ==> (#[trigger] pending@[k]) < counts@.len(),
            forall|k: int|
                0 <= k < pending@.len() ==> (free.contains(#[trigger] pending@[k]) <==>
                    counts@[pending@[k] as int] == 0),
            taken@ + peel(free, pending@, i as int).0 == peel(free, start, 0).0,
            peel(free, pending@, i as int).1 == peel(free, start, 0).1,
        decreases pending@.len() + pending@.len() - i,
    {
        let idx = pending[i];
        let ghost before = pending@;
        let ghost taken_before = taken@;
        if counts[idx] == 0 {
            let last = pending[pending.len() - 1];
            pending.set(i, last);
            pending.pop();
            taken.push(idx);
            proof {
                let shorter = before.update(i as int, before.last()).drop_last();
                assert(pending@ == shorter);
                assert(peel(free, before, i as int).0 == seq![before[i as int]] + peel(
                    free,
                    shorter,
                    i as int,
                ).0);
                assert(taken_before + (seq![before[i as int]] + peel(free, shorter, i as int).0)
                    == taken@ + peel(free, shorter, i as int).0);
                assert forall|k: int| 0 <= k < pending@.len() implies (#[trigger] pending@[k])
                    < counts@.len() && (free.contains(pending@[k]) <==>
                    counts@[pending@[k] as int] == 0) by {
                    if k == i {
                        assert(pending@[k] == before[before.len() - 1]);
                    } else {
                        assert(pending@[k] == before[k]);
                    }
                }
            }
        } else {
            i = i + 1;
        }
    }
    assert(taken@ + Seq::<usize>::empty() == taken@);
    taken
}

proof fn lemma_dominators_without(
    standings: Seq<Option<Standing>>,
    directions: Seq<Direction>,
    live: Set<usize>,
    x: usize,
    y: usize,
)
    requires
        live.finite(),
        live.contains(x),
    ensures
        dominators(standings, directions, live, y).finite(),
        dominators(standings, directions, live.remove(x), y).len() == dominators(
            standings,
            directions,
            live,
            y,
        ).len() - (if outranks(standings[x as int], standings[y as int], directions) {
            1int
        } else {
            0int
        }),
{
    let with = dominators(standings, directions, live, y);
    let without = dominators(standings, directions, live.remove(x), y);
    vstd::set_lib::lemma_set_subset_finite(live, with);
    if outranks(standings[x as int], standings[y as int], directions) {
        assert(without =~= with.remove(x));
        assert(with.contains(x));
    } else {
        assert(without =~= with);
    }
}

/// Takes the members of a front out of the counts of those they dominate.
fn discharge(
    front: &Vec<usize>,
    lists: &Vec<Vec<usize>>,
    counts: &mut Vec<usize>,
    Ghost(standings): Ghost<Seq<Option<Standing>>>,
    Ghost(directions): Ghost<Seq<Direction>>,
    Ghost(live): Ghost<Set<usize>>,
)
    requires
        live.finite(),
        front@.no_duplicates(),
        forall|k: int|
            0 <= k < front@.len() ==> live.contains(#[trigger] front@[k]) && front@[k]
                < standings.len(),
        old(counts)@.len() == standings.len(),
        lists@.len() == standings.len(),
        forall|x: usize, y: usize|
            x < standings.len() ==> (#[trigger] lists@[x as int]@.contains(y) <==> y
                < standings.len() && outranks(standings[x as int], standings[y as int], directions)),
        forall|x: usize| x < standings.len() ==> (#[trigger] lists@[x as int])@.no_duplicates(),
        forall|y: usize|
            y < standings.len() ==> #[trigger] old(counts)@[y as int] == dominators(
                standings,
                directions,
                live,
                y,
            ).len(),
    ensures
        final(counts)@.len() == standings.len(),
        forall|y: usize|
            y < standings.len() ==> #[trigger] final(counts)@[y as int] == dominators(
                standings,
                directions,
                live.difference(front@.to_set()),
                y,
            ).len(),
{
    let ghost mut left = live;
    assert(live.difference(front@.take(0).to_set()) =~= live);
    for k in 0..front.len()
        invariant
            left == live.difference(front@.take(k as int).to_set()),
            live.finite(),
            front@.no_duplicates(),
            forall|k: int|
                0 <= k < front@.len() ==> live.contains(#[trigger] front@[k]) && front@[k]
                    < standings.len(),
            lists@.len() == standings.len(),
            counts@.len() == standings.len(),
            forall|x: usize, y: usize|
                x < standings.len() ==> (#[trigger] lists@[x as int]@.contains(y) <==> y
                    < standings.len() && outranks(
                    standings[x as int],
                    standings[y as int],
                    directions,
                )),
            forall|x: usize| x < standings.len() ==> (#[trigger] lists@[x as int])@.no_duplicates(),
            forall|y: usize|
                y < standings.len() ==> #[trigger] counts@[y as int] == dominators(
                    standings,
                    directions,
                    left,
                    y,
                ).len(),
    {
        let x = front[k];
        let beaten = &lists[x];
        assert(!front@.take(k as int).contains(x));
        assert(left.contains(x));
        assert(beaten@.no_duplicates()) by {
            assert(lists@[x as int]@.no_duplicates());
        }
        for m in 0..beaten.len()
            invariant
                x < standings.len(),
                left.finite(),
                left.contains(x),
                counts@.len() == standings.len(),
                beaten@.no_duplicates(),
                forall|y: usize|
                    #[trigger] beaten@.contains(y) <==> y < standings.len() && outranks(
                        standings[x as int],
                        standings[y as int],
                        directions,
                    ),
                forall|y: usize|
                    y < standings.len() ==> #[trigger] counts@[y as int] == dominators(
                        standings,
                        directions,
                        left,
                        y,
                    ).len() - (if beaten@.take(m as int).contains(y) {
                        1int
                    } else {
                        0int
                    }),
        {
            let y = beaten[m];
            let ghost before = counts@;
            proof {
                assert(beaten@.contains(y));
                assert(!beaten@.take(m as int).contains(y));
                lemma_dominators_without(standings, directions, left, x, y);
                assert(dominators(standings, directions, left, y).contains(x));
                assert(counts@[y as int] == dominators(standings, directions, left, y).len());
            }
            counts[y] = counts[y] - 1;
            proof {
                let seen = beaten@.take(m as int);
                let seen2 = beaten@.take(m + 1);
                assert forall|z: usize| #[trigger] seen2.contains(z) <==> seen.contains(z) || z
                    == y by {
                    assert(seen2[m as int] == y);
                    if seen.contains(z) {
                        let q = choose|q: int| 0 <= q < seen.len() && seen[q] == z;
                        assert(seen2[q] == z);
                    }
                    if seen2.contains(z) {
                        let q = choose|q: int| 0 <= q < seen2.len() && seen2[q] == z;
                        if q < m {
                            assert(seen[q] == z);
                        }
                    }
                }
                assert forall|z: usize| z < standings.len() implies #[trigger] counts@[z as int]
                    == dominators(standings, directions, left, z).len() - (if seen2.contains(z) {
                    1int
                } else {
                    0int
                }) by {
                    assert(before[z as int] == dominators(standings, directions, left, z).len() - (
                    if seen.contains(z) {
                        1int
                    } else {
                        0int
                    }));
                }
            }
        }
        proof {
            assert(beaten@.take(beaten@.len() as int) == beaten@);
            let next = left.remove(x);
            assert forall|y: usize| y < standings.len() implies #[trigger] counts@[y as int]
                == dominators(standings, directions, next, y).len() by {
                lemma_dominators_without(standings, directions, left, x, y);
                assert(beaten@.contains(y) <==> outranks(
                    standings[x as int],
                    standings[y as int],
                    directions,
                ));
            }
            assert(front@.take(k + 1) == front@.take(k as int).push(x));
            assert(next =~= live.difference(front@.take(k + 1).to_set())) by {
                assert forall|z: usize| front@.take(k + 1).contains(z) <==> front@.take(
                    k as int,
                ).contains(z) || z == x by {
                    let seen = front@.take(k as int);
                    assert(seen.push(x)[k as int] == x);
                    if seen.contains(z) {
                        let q = choose|q: int| 0 <= q < seen.len() && seen[q] == z;
                        assert(seen.push(x)[q] == z);
                    }
                }
            }
            left = next;
        }
    }
    assert(front@.take(front@.len() as int) == front@);
}

/// The rows of a table of positions.
pub open spec fn rows<T>(table: Seq<Vec<T>>) -> Seq<Seq<T>> {
    table.map_values(|row: Vec<T>| row@)
}

/// Sorts the positions of a population into fronts, best first.
pub fn rank_positions(
    standings: &Vec<Option<(&[Number], bool, Number)>>,
    directions: &[Direction],
) -> (ranked: Vec<Vec<usize>>)
    requires
        forall|x: int|
            0 <= x < standings@.len() ==> (standing_view(#[trigger] standings@[x]) matches Some(s)
                ==> s.values.len() >= directions@.len()),
    ensures
        rows(ranked@) == fronts(
            standings_view(standings@),
            directions@,
            positions(standings@.len()),
        ),
{
    let n = standings.len();
    let ghost views = standings_view(standings@);
    let (mut counts, lists) = tally(standings, directions);
    let mut pending: Vec<usize> = Vec::new();
    for k in 0..n
        invariant
            pending@ == positions(k as nat),
    {
        pending.push(k);
        assert(pending@ =~= positions((k + 1) as nat));
    }
    let ghost all = pending@;
    let mut ranked: Vec<Vec<usize>> = Vec::new();
    proof {
        lemma_below_finite(n as nat);
        assert forall|x: usize, y: usize| x < n implies (#[trigger] lists@[x as int]@.contains(y)
            <==> y < n && outranks(views[x as int], views[y as int], directions@)) by {
            if y < n && x == y {
                law_dominance_is_irreflexive(views[x as int], directions@);
            }
        }
        assert forall|x: usize| x < n implies #[trigger] counts@[x as int] == dominators(
            views,
            directions@,
            pending@.to_set(),
            x,
        ).len() by {
            law_dominance_is_irreflexive(views[x as int], directions@);
            assert forall|y: usize| pending@.contains(y) <==> y < n by {
                if y < n {
                    assert(pending@[y as int] == y);
                }
            }
            assert(dominators(views, directions@, pending@.to_set(), x) =~= compared_dominators(
                views,
                directions@,
                n as int,
                0,
                x,
            ));
        }
        assert(rows(ranked@) + fronts(views, directions@, all) =~= fronts(views, directions@, all));
    }
    while pending.len() > 0
        invariant
            views == standings_view(standings@),
            views.len() == n,
            counts@.len() == n,
            lists@.len() == n,
            pending@.no_duplicates(),
            forall|k: int| 0 <= k < pending@.len() ==> (#[trigger] pending@[k]) < n,
            forall|x: usize, y: usize|
                x < n ==> (#[trigger] lists@[x as int]@.contains(y) <==> y < n && outranks(
                    views[x as int],
                    views[y as int],
                    directions@,
                )),
            forall|x: usize| x < n ==> (#[trigger] lists@[x as int])@.no_duplicates(),
            forall|x: usize|
                x < n ==> #[trigger] counts@[x as int] == dominators(
                    views,
                    directions@,
                    pending@.to_set(),
                    x,
                ).len(),
            rows(ranked@) + fronts(views, directions@, pending@) == fronts(views, directions@, all),
        decreases pending@.len(),
    {
        let ghost before = pending@;
        let ghost live = pending@.to_set();
        let ghost free = undominated_set(views, directions@, before);
        proof {
            assert forall|k: int| 0 <= k < before.len() implies (free.contains(
                #[trigger] before[k],
            ) <==> counts@[before[k] as int] == 0) by {
                let x = before[k];
                let d = dominators(views, directions@, live, x);
                vstd::set_lib::lemma_set_subset_finite(live, d);
                assert(counts@[x as int] == d.len());
                if undominated(views, directions@, before, x) {
                    assert forall|y: usize| !d.contains(y) by {
                        if d.contains(y) {
                            let q = choose|q: int| 0 <= q < before.len() && before[q] == y;
                            assert(!outranks(
                                views[before[q] as int],
                                views[x as int],
                                directions@,
                            ));
                        }
                    }
                    assert(d =~= Set::<usize>::empty());
                } else {
                    let q = choose|q: int|
                        0 <= q < before.len() && outranks(
                            views[#[trigger] before[q] as int],
                            views[x as int],
                            directions@,
                        );
                    assert(live.contains(before[q]));
                    assert(d.contains(before[q]));
                    if d.len() == 0 {
                        d.lemma_len0_is_empty();
                    }
                }
            }
            lemma_round(views, directions@, before);
        }
        let front = take_undominated(&counts, &mut pending, Ghost(free));
        proof {
            assert forall|k: int| 0 <= k < front@.len() implies live.contains(
                #[trigger] front@[k],
            ) && front@[k] < n by {
                assert(front@.contains(front@[k]));
                assert(before.contains(front@[k]));
            }
            assert forall|k: int| 0 <= k < pending@.len() implies (#[trigger] pending@[k]) < n by {
                assert(pending@.contains(pending@[k]));
                assert(before.contains(pending@[k]));
            }
            assert(live.difference(front@.to_set()) =~= pending@.to_set());
        }
        discharge(
            &front,
            &lists,
            &mut counts,
            Ghost(views),
            Ghost(directions@),
            Ghost(live),
        );
        let ghost ranked_before = ranked@;
        ranked.push(front);
        proof {
            assert(rows(ranked@) =~= rows(ranked_before).push(front@));
            assert(rows(ranked_before) + (seq![front@] + fronts(views, directions@, pending@))
                =~= rows(ranked@) + fronts(views, directions@, pending@));
        }
    }
    proof {
        assert(fronts(views, directions@, pending@) =~= Seq::<Seq<usize>>::empty());
        assert(rows(ranked@) + Seq::<Seq<usize>>::empty() =~= rows(ranked@));
    }
    ranked
}

/// Every position lies in one front, at one place in it, and fronts hold no other positions.
pub proof fn law_fronts_partition_the_population(
    standings: Seq<Option<Standing>>,
    directions: Seq<Direction>,
)
    requires
        standings.len() <= usize::MAX,
    ensures
        fronts(standings, directions, positions(standings.len())).flatten().to_multiset()
            == positions(standings.len()).to_multiset(),
        forall|a: int|
            0 <= a < fronts(standings, directions, positions(standings.len())).len()
                ==> (#[trigger] fronts(standings, directions, positions(standings.len()))[a]).len()
                > 0,
{
    lemma_fronts_partition(standings, directions, positions(standings.len()));
}

proof fn lemma_fronts_partition(
    standings: Seq<Option<Standing>>,
    directions: Seq<Direction>,
    pending: Seq<usize>,
)
    requires
        pending.no_duplicates(),
    ensures
        fronts(standings, directions, pending).flatten().to_multiset() == pending.to_multiset(),
        forall|a: int|
            0 <= a < fronts(standings, directions, pending).len() ==> (#[trigger] fronts(
                standings,
                directions,
                pending,
            )[a]).len() > 0,
    decreases pending.len(),
{
    broadcast use vstd::seq_lib::group_to_multiset_ensures;

    let all = fronts(standings, directions, pending);
    if pending.len() == 0 {
        assert(all =~= Seq::<Seq<usize>>::empty());
        assert(all.flatten() =~= pending);
    } else {
        lemma_round(standings, directions, pending);
        let (front, rest) = peel(undominated_set(standings, directions, pending), pending, 0);
        lemma_fronts_partition(standings, directions, rest);
        let later = fronts(standings, directions, rest);
        assert(all.drop_first() =~= later);
        assert(all.flatten() == front + later.flatten());
        vstd::seq_lib::lemma_multiset_commutative(front, later.flatten());
        vstd::seq_lib::lemma_multiset_commutative(front, rest);
        let both = front + rest;
        assert(both.no_duplicates()) by {
            assert forall|i: int, j: int|
                0 <= i < both.len() && 0 <= j < both.len() && i != j implies both[i] != both[j] by {
                if i < front.len() && j >= front.len() {
                    assert(front.contains(both[i]) && rest.contains(both[j]));
                }
                if j < front.len() && i >= front.len() {
                    assert(front.contains(both[j]) && rest.contains(both[i]));
                }
            }
        }
        assert forall|x: usize| #[trigger] both.contains(x) <==> pending.contains(x) by {
            if front.contains(x) {
                let k = choose|k: int| 0 <= k < front.len() && front[k] == x;
                assert(both[k] == x);
            }
            if rest.contains(x) {
                let k = choose|k: int| 0 <= k < rest.len() && rest[k] == x;
                assert(both[front.len() + k] == x);
            }
            if both.contains(x) {
                let k = choose|k: int| 0 <= k < both.len() && both[k] == x;
                if k < front.len() {
                    assert(front.contains(x));
                } else {
                    assert(rest[k - front.len()] == x);
                    assert(rest.contains(x));
                }
            }
        }
        both.lemma_multiset_has_no_duplicates();
        pending.lemma_multiset_has_no_duplicates();
        assert(both.to_multiset() =~= pending.to_multiset()) by {
            assert forall|x: usize| both.to_multiset().count(x) == pending.to_multiset().count(
                x,
            ) by {
                assert(both.contains(x) <==> both.to_multiset().count(x) > 0);
                assert(pending.contains(x) <==> pending.to_multiset().count(x) > 0);
            }
        }
        assert forall|a: int| 0 <= a < all.len() implies (#[trigger] all[a]).len() > 0 by {
            if a > 0 {
                assert(all[a] == later[a - 1]);
            }
        }
    }
}

/// Fronts hold positions of the population only.
pub proof fn lemma_fronts_in_range(standings: Seq<Option<Standing>>, directions: Seq<Direction>)
    requires
        standings.len() <= usize::MAX,
    ensures
        ({
            let ranked = fronts(standings, directions, positions(standings.len()));
            forall|a: int, k: int|
                0 <= a < ranked.len() && 0 <= k < ranked[a].len() ==> (#[trigger] ranked[a][k])
                    < standings.len()
        }),
{
    let all = positions(standings.len());
    lemma_fronts_follow_dominance(standings, directions, all);
    let ranked = fronts(standings, directions, all);
    assert forall|a: int, k: int|
        0 <= a < ranked.len() && 0 <= k < ranked[a].len() implies (#[trigger] ranked[a][k])
        < standings.len() by {
        assert(ranked[a].contains(ranked[a][k]));
        assert(all.contains(ranked[a][k]));
    }
}

/// A trial is dominated from earlier fronts only, and, beyond the first front, by some member of
/// the front just before its own.
pub proof fn law_fronts_follow_dominance(
    standings: Seq<Option<Standing>>,
    directions: Seq<Direction>,
)
    requires
        standings.len() <= usize::MAX,
    ensures
        ({
            let ranked = fronts(standings, directions, positions(standings.len()));
            &&& forall|a: int, b: int, p: usize, q: usize|
                0 <= a < ranked.len() && 0 <= b < ranked.len() && #[trigger] ranked[a].contains(p)
                    && #[trigger] ranked[b].contains(q) && outranks(
                    standings[p as int],
                    standings[q as int],
                    directions,
                ) ==> a < b
            &&& forall|b: int, q: usize|
                0 < b < ranked.len() && #[trigger] ranked[b].contains(q) ==> exists|p: usize|
                    #[trigger] ranked[b - 1].contains(p) && outranks(
                        standings[p as int],
                        standings[q as int],
                        directions,
                    )
        }),
{
    lemma_fronts_follow_dominance(standings, directions, positions(standings.len()));
}

proof fn lemma_fronts_follow_dominance(
    standings: Seq<Option<Standing>>,
    directions: Seq<Direction>,
    pending: Seq<usize>,
)
    requires
        pending.no_duplicates(),
    ensures
        ({
            let ranked = fronts(standings, directions, pending);
            &&& forall|a: int, p: usize|
                0 <= a < ranked.len() && #[trigger] ranked[a].contains(p) ==> pending.contains(p)
            &&& forall|a: int, b: int, p: usize, q: usize|
                0 <= a < ranked.len() && 0 <= b < ranked.len() && #[trigger] ranked[a].contains(p)
                    && #[trigger] ranked[b].contains(q) && outranks(
                    standings[p as int],
                    standings[q as int],
                    directions,
                ) ==> a < b
            &&& forall|b: int, q: usize|
                0 < b < ranked.len() && #[trigger] ranked[b].contains(q) ==> exists|p: usize|
                    #[trigger] ranked[b - 1].contains(p) && outranks(
                        standings[p as int],
                        standings[q as int],
                        directions,
                    )
        }),
    decreases pending.len(),
{
    let ranked = fronts(standings, directions, pending);
    if pending.len() > 0 {
        lemma_round(standings, directions, pending);
        let (front, rest) = peel(undominated_set(standings, directions, pending), pending, 0);
        let later = fronts(standings, directions, rest);
        lemma_fronts_follow_dominance(standings, directions, rest);
        assert(forall|a: int| 0 < a < ranked.len() ==> #[trigger] ranked[a] == later[a - 1]);
        assert(ranked[0] == front);
        assert forall|a: int, p: usize|
            0 <= a < ranked.len() && #[trigger] ranked[a].contains(p) implies pending.contains(
            p,
        ) by {
            if a > 0 {
                assert(later[a - 1].contains(p));
                assert(rest.contains(p));
            }
        }
        assert forall|a: int, b: int, p: usize, q: usize|
            0 <= a < ranked.len() && 0 <= b < ranked.len() && #[trigger] ranked[a].contains(p)
                && #[trigger] ranked[b].contains(q) && outranks(
                standings[p as int],
                standings[q as int],
                directions,
            ) implies a < b by {
            if b == 0 {
                assert(undominated(standings, directions, pending, q));
                let k = choose|k: int| 0 <= k < pending.len() && pending[k] == p;
                assert(!outranks(standings[pending[k] as int], standings[q as int], directions));
            } else if a > 0 {
                assert(later[a - 1].contains(p));
                assert(later[b - 1].contains(q));
            }
        }
        assert forall|b: int, q: usize|
            0 < b < ranked.len() && #[trigger] ranked[b].contains(q) implies exists|p: usize|
            #[trigger] ranked[b - 1].contains(p) && outranks(
                standings[p as int],
                standings[q as int],
                directions,
            ) by {
            assert(later[b - 1].contains(q));
            if b == 1 {
                assert(rest.contains(q));
                assert(rest.len() > 0);
                lemma_round(standings, directions, rest);
                assert(undominated(standings, directions, rest, q));
                let k = choose|k: int|
                    0 <= k < pending.len() && outranks(
                        standings[#[trigger] pending[k] as int],
                        standings[q as int],
                        directions,
                    );
                let p = pending[k];
                if rest.contains(p) {
                    let m = choose|m: int| 0 <= m < rest.len() && rest[m] == p;
                    assert(!outranks(standings[rest[m] as int], standings[q as int], directions));
                }
                assert(pending.contains(p));
                assert(front.contains(p));
                assert(ranked[b - 1].contains(p));
            } else {
                let p = choose|p: usize|
                    #[trigger] later[b - 2].contains(p) && outranks(
                        standings[p as int],
                        standings[q as int],
                        directions,
                    );
                assert(ranked[b - 1].contains(p));
            }
        }
    }
}

/// How a front is taken out of what is pending: a member that is not free stays in its slot; a free
/// one is the next of the front, and the last member takes its slot and is looked at next.
pub proof fn law_free_members_are_replaced_by_the_last(
    free: Set<usize>,
    pending: Seq<usize>,
    slot: int,
)
    requires
        0 <= slot <= pending.len(),
    ensures
        slot == pending.len() ==> peel(free, pending, slot) == (Seq::<usize>::empty(), pending),
        slot < pending.len() && !free.contains(pending[slot]) ==> peel(free, pending, slot) == peel(
            free,
            pending,
            slot + 1,
        ),
        slot < pending.len() - 1 && free.contains(pending[slot]) ==> {
            let shorter = Seq::new(
                (pending.len() - 1) as nat,
                |k: int| pending[if k == slot { pending.len() - 1 } else { k }],
            );
            &&& peel(free, pending, slot).0 == seq![pending[slot]] + peel(free, shorter, slot).0
            &&& peel(free, pending, slot).1 == peel(free, shorter, slot).1
        },
        slot == pending.len() - 1 && free.contains(pending[slot]) ==> peel(free, pending, slot) == (
            seq![pending[slot]],
            pending.take(slot),
        ),
{
    if slot < pending.len() && free.contains(pending[slot]) {
        let shorter = pending.update(slot, pending.last()).drop_last();
        if slot < pending.len() - 1 {
            assert(shorter =~= Seq::new(
                (pending.len() - 1) as nat,
                |k: int| pending[if k == slot { pending.len() - 1 } else { k }],
            ));
        } else {
            assert(shorter =~= pending.take(slot));
            assert(peel(free, shorter, slot) == (Seq::<usize>::empty(), shorter));
            assert(seq![pending[slot]] + Seq::<usize>::empty() =~= seq![pending[slot]]);
        }
    }
}

/// The first front is taken out of what is pending from the first slot on; its members are those
/// that nobody pending dominates. The next fronts are those of what is left.
pub proof fn law_fronts_are_taken_out_one_after_the_other(
    standings: Seq<Option<Standing>>,
    directions: Seq<Direction>,
    pending: Seq<usize>,
)
    requires
        pending.len() > 0,
        pending.no_duplicates(),
    ensures
        ({
            let free = Set::new(
                |x: usize|
                    forall|y: usize| #[trigger]
                        pending.contains(y) ==> !outranks(
                            standings[y as int],
                            standings[x as int],
                            directions,
                        ),
            );
            let (front, rest) = peel(free, pending, 0);
            &&& front.len() > 0
            &&& front.len() + rest.len() == pending.len()
            &&& fronts(standings, directions, pending) == seq![front] + fronts(
                standings,
                directions,
                rest,
            )
        }),
        fronts(standings, directions, Seq::empty()) == Seq::<Seq<usize>>::empty(),
{
    let free = Set::new(
        |x: usize|
            forall|y: usize| #[trigger]
                pending.contains(y) ==> !outranks(
                    standings[y as int],
                    standings[x as int],
                    directions,
                ),
    );
    let known = undominated_set(standings, directions, pending);
    assert forall|x: usize| free.contains(x) <==> known.contains(x) by {
        if known.contains(x) {
            assert(undominated(standings, directions, pending, x));
            assert forall|y: usize| #[trigger] pending.contains(y) implies !outranks(
                standings[y as int],
                standings[x as int],
                directions,
            ) by {
                let k = choose|k: int| 0 <= k < pending.len() && pending[k] == y;
                assert(!outranks(standings[pending[k] as int], standings[x as int], directions));
            }
        }
        if free.contains(x) {
            assert forall|k: int| 0 <= k < pending.len() implies !outranks(
                standings[#[trigger] pending[k] as int],
                standings[x as int],
                directions,
            ) by {
                assert(pending.contains(pending[k]));
            }
        }
    }
    assert(free =~= known);
    lemma_round(standings, directions, pending);
    lemma_peel_len(free, pending, 0);
    assert(fronts(standings, directions, Seq::empty()) =~= Seq::<Seq<usize>>::empty());
}

proof fn lemma_peel_len(free: Set<usize>, pending: Seq<usize>, slot: int)
    ensures
        peel(free, pending, slot).0.len() + peel(free, pending, slot).1.len() == pending.len(),
    decreases pending.len() + pending.len() - slot,
{
    if 0 <= slot < pending.len() {
        if free.contains(pending[slot]) {
            lemma_peel_len(free, pending.update(slot, pending.last()).drop_last(), slot);
        } else {
            lemma_peel_len(free, pending, slot + 1);
        }
    }
}

/// The positions of a population count up from 0.
pub proof fn law_positions_count_up(n: nat)
    requires
        n <= usize::MAX,
    ensures
        positions(n).len() == n,
        forall|k: int| 0 <= k < n ==> #[trigger] positions(n)[k] == k,
{
}

/// Tables and lists of standings are read row by row.
pub proof fn law_tables_are_read_row_by_row<T>(
    table: Seq<Vec<T>>,
    standings: Seq<Option<(&[Number], bool, Number)>>,
)
    ensures
        rows(table).len() == table.len(),
        forall|a: int| 0 <= a < table.len() ==> #[trigger] rows(table)[a] == table[a]@,
        standings_view(standings).len() == standings.len(),
        forall|a: int|
            0 <= a < standings.len() ==> #[trigger] standings_view(standings)[a] == standing_view(
                standings[a],
            ),
{
}

} // verus!
