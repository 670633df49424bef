use rand::Rng;
use rand::SeedableRng;
use rand::distributions::Bernoulli;
use rand::rngs::StdRng;
use rand::seq::SliceRandom;
use vstd::prelude::*;

verus! {

/// The random number generator of the `rand` crate. All its draws follow from its state.
#[verifier::external_type_specification]
#[verifier::external_body]
pub struct ExStdRng(rand::rngs::StdRng);

/// A probability in the form in which the `rand` crate draws from it.
#[verifier::external_type_specification]
#[verifier::external_body]
pub struct ExBernoulli(rand::distributions::Bernoulli);

/// What the `rand` crate says of a number that is no probability.
#[verifier::external_type_specification]
#[verifier::external_body]
pub struct ExBernoulliError(rand::distributions::BernoulliError);

/// The generator that a seed of bytes gives.
pub uninterp spec fn rng_from_bytes(seed: Seq<u8>) -> StdRng;

/// Calls `SeedableRng::from_seed` of `StdRng`; the generator depends on the seed alone.
#[verifier::external_body]
pub(crate) fn from_seed(seed: [u8; 32]) -> (rng: StdRng)
    ensures
        rng == rng_from_bytes(seed@),
{
    StdRng::from_seed(seed)
}

/// The generator that a number as seed gives.
pub uninterp spec fn rng_from_number(seed: u64) -> StdRng;

/// Calls `SeedableRng::seed_from_u64` of `StdRng`; the generator depends on the seed alone.
#[verifier::external_body]
pub(crate) fn seed_from_number(seed: u64) -> (rng: StdRng)
    ensures
        rng == rng_from_number(seed),
{
    StdRng::seed_from_u64(seed)
}

/// The chance of `numerator` in `denominator`.
pub uninterp spec fn ratio(numerator: u32, denominator: u32) -> Bernoulli;

/// Calls `Bernoulli::from_ratio`, which fails only for a ratio above one.
///
/// The chance is the one that `Bernoulli::new` makes of the quotient of the two numbers.
#[verifier::external_body]
pub(crate) fn chance(numerator: u32, denominator: u32) -> (made: Result<
    Bernoulli,
    rand::distributions::BernoulliError,
>)
    requires
        denominator > 0,
    ensures
        made is Ok <==> numerator <= denominator,
        made is Ok ==> made->Ok_0 == ratio(numerator, denominator),
{
    Bernoulli::from_ratio(numerator, denominator)
}

/// Whether a chance is that of something that does not happen.
pub open spec fn impossible(p: Bernoulli) -> bool {
    exists|denominator: u32| denominator > 0 && p == #[trigger] ratio(0, denominator)
}

/// Whether a chance is that of something that always happens.
pub open spec fn certain(p: Bernoulli) -> bool {
    exists|count: u32| count > 0 && p == #[trigger] ratio(count, count)
}

/// What a draw with chance `p` gives with a generator, and the generator after it.
pub uninterp spec fn coin(rng: StdRng, p: Bernoulli) -> (bool, StdRng);

/// Calls `Rng::sample` with a Bernoulli distribution, which is what `Rng::gen_bool` does with the
/// distribution of its probability. Both the outcome and the state after it follow from the state
/// before and the chance. A numerator of 0 never comes up. A numerator as great as the denominator
/// always comes up, and leaves the generator as it was.
#[verifier::external_body]
pub(crate) fn flip(rng: &mut StdRng, p: &Bernoulli) -> (heads: bool)
    ensures
        (heads, *final(rng)) == coin(*old(rng), *p),
        impossible(*p) ==> !heads,
        certain(*p) ==> heads,
        certain(*p) ==> *final(rng) == *old(rng),
{
    rng.sample(*p)
}

/// The index from 0 to `max_index` that a generator draws, and the generator after it.
pub uninterp spec fn drawn_index(rng: StdRng, max_index: i64) -> (i64, StdRng);

/// Calls `Rng::gen_range` for the range from 0 to `max_index`, both included. The draw lies in
/// the range and, with the state after it, follows from the state before and the range.
#[verifier::external_body]
pub(crate) fn draw_index(rng: &mut StdRng, max_index: i64) -> (index: i64)
    requires
        max_index >= 0,
    ensures
        (index, *final(rng)) == drawn_index(*old(rng), max_index),
        0 <= index <= max_index,
{
    rng.gen_range(0..=max_index)
}

/// The positions below `len` that a generator draws when it chooses `amount` of them, and the
/// generator after it.
pub uninterp spec fn drawn_positions(rng: StdRng, len: nat, amount: nat) -> (Seq<int>, StdRng);

/// Whether `chosen` holds the members of `pool` at the given positions, which are distinct and as
/// many as asked for or as there are.
pub open spec fn is_choice(
    chosen: Seq<u32>,
    pool: Seq<u32>,
    positions: Seq<int>,
    amount: nat,
) -> bool {
    &&& chosen.len() == positions.len()
    &&& positions.len() == if amount <= pool.len() {
        amount
    } else {
        pool.len()
    }
    &&& positions.no_duplicates()
    &&& forall|k: int|
        0 <= k < positions.len() ==> 0 <= #[trigger] positions[k] < pool.len() && chosen[k]
            == pool[positions[k]]
}

/// Calls `SliceRandom::choose_multiple`.
///
/// It chooses members at distinct positions, as many as asked for if there are so many. The
/// positions and the state after it follow from the state before, the length and the amount.
#[verifier::external_body]
pub(crate) fn choose_multiple(rng: &mut StdRng, pool: &Vec<u32>, amount: usize) -> (chosen: Vec<
    u32,
>)
    requires
        amount < pool@.len() || pool@.len() <= u32::MAX,
    ensures
        is_choice(
            chosen@,
            pool@,
            drawn_positions(*old(rng), pool@.len(), amount as nat).0,
            amount as nat,
        ),
        *final(rng) == drawn_positions(*old(rng), pool@.len(), amount as nat).1,
{
    pool.choose_multiple(rng, amount).copied().collect()
}

/// What `count` draws with the same chance give, one after the other, and the generator after
/// them.
pub open spec fn coins(rng: StdRng, p: Bernoulli, count: nat) -> (Seq<bool>, StdRng)
    decreases count,
{
    if count == 0 {
        (Seq::empty(), rng)
    } else {
        let (earlier, before) = coins(rng, p, (count - 1) as nat);
        let (last, after) = coin(before, p);
        (earlier.push(last), after)
    }
}

/// Draws `count` times with the same chance.
pub fn flip_coins(rng: &mut StdRng, p: &Bernoulli, count: usize) -> (heads: Vec<bool>)
    ensures
        (heads@, *final(rng)) == coins(*old(rng), *p, count as nat),
        heads@.len() == count,
        impossible(*p) ==> forall|k: int| 0 <= k < count ==> !(#[trigger] heads@[k]),
        certain(*p) ==> forall|k: int| 0 <= k < count ==> #[trigger] heads@[k],
        certain(*p) ==> *final(rng) == *old(rng),
{
    let ghost start = *rng;
    let mut heads: Vec<bool> = Vec::new();
    for k in 0..count
        invariant
            (heads@, *rng) == coins(start, *p, k as nat),
            heads@.len() == k,
            impossible(*p) ==> forall|i: int| 0 <= i < k ==> !(#[trigger] heads@[i]),
            certain(*p) ==> forall|i: int| 0 <= i < k ==> #[trigger] heads@[i],
            certain(*p) ==> *rng == start,
    {
        let head = flip(rng, p);
        heads.push(head);
    }
    heads
}

/// Coins are drawn one after the other: the first with the generator as it is, and the others with
/// the generator as it is then.
pub proof fn law_coins_are_drawn_one_after_the_other(rng: StdRng, p: Bernoulli, count: nat)
    ensures
        coins(rng, p, 0) == (Seq::<bool>::empty(), rng),
        coins(rng, p, count).0.len() == count,
        coins(rng, p, count + 1).0 == seq![coin(rng, p).0] + coins(coin(rng, p).1, p, count).0,
        coins(rng, p, count + 1).1 == coins(coin(rng, p).1, p, count).1,
    decreases count,
{
    if count == 0 {
        assert(coins(rng, p, 0) == (Seq::<bool>::empty(), rng));
        assert(coins(coin(rng, p).1, p, 0) == (Seq::<bool>::empty(), coin(rng, p).1));
        assert(coins(rng, p, 1).0 =~= seq![coin(rng, p).0] + Seq::<bool>::empty());
    } else {
        let fewer = (count - 1) as nat;
        law_coins_are_drawn_one_after_the_other(rng, p, fewer);
        let after = coin(rng, p).1;
        let (rest, then) = coins(after, p, fewer);
        assert(coins(rng, p, count).0 == seq![coin(rng, p).0] + rest);
        assert(coins(rng, p, count).1 == then);
        assert(coins(after, p, count).0 == rest.push(coin(then, p).0));
        assert(coins(rng, p, count + 1).0 =~= seq![coin(rng, p).0] + coins(after, p, count).0);
    }
}

} // verus!
