//! Rolling ten-sided dice that may explode, and pools of them.
//!
//! A die is a chain of faces: the first face, and one more face after every
//! face that explodes. Its value is the sum of the chain. The faces come from a
//! random generator, so the contracts here state what holds of every chain that
//! the generator can produce.

use crate::config::{ExplosionMode, RollConfig};
use crate::histogram::{count_sum, lemma_count_sum_empty, record_outcome};
use crate::sorting::{
    lemma_ascending_is_sorted_values, lemma_sorted_values, sort_ascending, sorted_values,
};
use rand::rngs::StdRng;
use rand::Rng;
use rand::SeedableRng;
use std::collections::HashMap;
use vstd::prelude::*;
use vstd::seq_lib::to_multiset_contains;

verus! {

/// Number of faces of a die.
pub const DIE_FACES: i32 = 10;

/// Most faces that one die may add after its first. No honest generator comes
/// near it; a die that would go on is given up as an error.
pub const MAX_EXPLOSIONS: u32 = 10_000;

/// No die is worth more: the longest chain has 10,001 faces of at most 10.
pub const MAX_DIE_VALUE: i32 = 100_010;

/// `rand`'s standard generator. Nothing is known of its state.
#[verifier::external_type_specification]
#[verifier::external_body]
pub struct ExStdRng(StdRng);

/// Why a simulation was given up.
#[derive(Debug, Clone, Copy, PartialEq, Eq, Structural)]
pub enum SimulationError {
    /// One die exploded more than `MAX_EXPLOSIONS` times in a row.
    ExplosionLimitExceeded,
}

/// The outcome of one die: its value, and whether it exploded at least once.
#[derive(Debug, Clone, Copy, PartialEq, Eq, Structural)]
pub struct DieResult {
    /// Sum of all faces of the chain.
    pub value: i32,
    /// Whether the chain has more than one face.
    pub exploded: bool,
}

impl DieResult {
    /// A die with the given value and explosion flag.
    pub fn new(value: i32, exploded: bool) -> (die: Self)
        ensures
            die == (DieResult { value, exploded }),
    {
        DieResult { value, exploded }
    }
}

/// Whether a face makes the die roll again in the given mode.
pub open spec fn explodes(face_value: int, mode: ExplosionMode) -> bool {
    match mode {
        ExplosionMode::Unskilled => false,
        ExplosionMode::Skilled => face_value == 10,
        ExplosionMode::Mastery => face_value == 9 || face_value == 10,
    }
}

/// Decides whether a face makes the die roll again in the given mode.
///
/// No face below 9 explodes in any mode, and only a 10 explodes for the skilled.
pub fn should_explode(face_value: i32, mode: ExplosionMode) -> (explode: bool)
    ensures
        explode == explodes(face_value as int, mode),
        face_value < 9 ==> !explode,
        mode == ExplosionMode::Skilled && face_value < 10 ==> !explode,
        mode == ExplosionMode::Unskilled ==> !explode,
{
    match mode {
        ExplosionMode::Unskilled => false,
        ExplosionMode::Skilled => face_value == 10,
        ExplosionMode::Mastery => face_value == 9 || face_value == 10,
    }
}

/// Whether `faces` can be the faces of one die so far: each a face of the die,
/// and each but the last one exploding.
pub open spec fn is_chain(mode: ExplosionMode, faces: Seq<int>) -> bool {
    &&& 1 <= faces.len() <= MAX_EXPLOSIONS + 1
    &&& forall|i: int| 0 <= i < faces.len() ==> 1 <= #[trigger] faces[i] <= DIE_FACES
    &&& forall|i: int| 0 <= i < faces.len() - 1 ==> explodes(#[trigger] faces[i], mode)
}

/// Whether `faces` are the faces of a die that has come to rest: its last face
/// does not explode.
pub open spec fn is_finished_chain(mode: ExplosionMode, faces: Seq<int>) -> bool {
    is_chain(mode, faces) && !explodes(faces.last(), mode)
}

/// Whether `faces` are the faces of a die that was given up: the longest chain
/// allowed, with a last face that explodes again.
pub open spec fn is_runaway_chain(mode: ExplosionMode, faces: Seq<int>) -> bool {
    is_chain(mode, faces) && faces.len() == MAX_EXPLOSIONS + 1 && explodes(faces.last(), mode)
}

/// The sum of a chain of faces.
pub open spec fn faces_sum(faces: Seq<int>) -> int
    decreases faces.len(),
{
    if faces.len() == 0 {
        0
    } else {
        faces_sum(faces.drop_last()) + faces.last()
    }
}

/// The die that a chain of faces gives.
pub open spec fn die_of(faces: Seq<int>) -> DieResult {
    DieResult { value: faces_sum(faces) as i32, exploded: faces.len() > 1 }
}

/// Whether `die` can come out of one roll in the given mode: it is the die of
/// some finished chain.
pub open spec fn is_roll_outcome(mode: ExplosionMode, die: DieResult) -> bool {
    exists|faces: Seq<int>| #[trigger] is_finished_chain(mode, faces) && die == die_of(faces)
}

/// What every die rolled in the given mode satisfies.
///
/// A die that did not explode shows a face that does not explode. A die that
/// exploded is worth at least its first, exploding, face and one more: above 10
/// for the skilled, 10 or more for a master. The unskilled never explode.
pub open spec fn within_mode(mode: ExplosionMode, die: DieResult) -> bool {
    &&& 1 <= die.value <= MAX_DIE_VALUE
    &&& !die.exploded ==> die.value <= DIE_FACES && !explodes(die.value as int, mode)
    &&& die.exploded ==> match mode {
        ExplosionMode::Unskilled => false,
        ExplosionMode::Skilled => die.value > 10,
        ExplosionMode::Mastery => die.value >= 10,
    }
}

/// A chain of faces adds up to at least one and at most ten for each face.
pub proof fn lemma_faces_sum_bounds(faces: Seq<int>)
    requires
        forall|i: int| 0 <= i < faces.len() ==> 1 <= #[trigger] faces[i] <= DIE_FACES,
    ensures
        faces.len() <= faces_sum(faces) <= DIE_FACES * faces.len(),
    decreases faces.len(),
{
    if faces.len() > 0 {
        lemma_faces_sum_bounds(faces.drop_last());
    }
}

/// Every outcome of a roll lies within its mode: an unskilled die never
/// explodes and shows 1 to 10; a skilled die that exploded is worth more than
/// 10; a master's die that exploded is worth 10 or more.
pub proof fn lemma_roll_outcome_within_mode(mode: ExplosionMode, die: DieResult)
    requires
        is_roll_outcome(mode, die),
    ensures
        within_mode(mode, die),
{
    let faces = choose|faces: Seq<int>| #[trigger]
        is_finished_chain(mode, faces) && die == die_of(faces);
    lemma_faces_sum_bounds(faces);
    if faces.len() == 1 {
        assert(faces.drop_last() =~= Seq::<int>::empty());
        assert(faces_sum(faces.drop_last()) == 0);
    } else {
        let rest = faces.drop_first();
        assert(explodes(faces[0], mode));
        lemma_faces_sum_split(faces);
        assert forall|i: int| 0 <= i < rest.len() implies 1 <= #[trigger] rest[i] <= DIE_FACES by {
            assert(rest[i] == faces[i + 1]);
        }
        lemma_faces_sum_bounds(rest);
    }
}

/// A chain adds up to its first face and the rest.
proof fn lemma_faces_sum_split(faces: Seq<int>)
    requires
        faces.len() >= 1,
    ensures
        faces_sum(faces) == faces[0] + faces_sum(faces.drop_first()),
    decreases faces.len(),
{
    if faces.len() == 1 {
        assert(faces.drop_last() =~= Seq::<int>::empty());
        assert(faces.drop_first() =~= Seq::<int>::empty());
    } else {
        lemma_faces_sum_split(faces.drop_last());
        assert(faces.drop_last().drop_first() =~= faces.drop_first().drop_last());
    }
}

/// Draws one face from `Rng::gen_range(1..=10)` on `rand`'s standard
/// generator. The face is uniform over the ten faces; all that is claimed here
/// is that it is one of them.
#[verifier::external_body]
fn draw_face(rng: &mut StdRng) -> (face: i32)
    ensures
        1 <= face <= DIE_FACES,
{
    rng.gen_range(1..=10)
}

/// A generator seeded by `SeedableRng::from_entropy`, that is from the
/// operating system. It panics where the system gives no entropy. Nothing is
/// claimed of the generator.
#[verifier::external_body]
fn entropy_rng() -> StdRng {
    StdRng::from_entropy()
}

/// Rolls one die: a first face, and one more face after every face that
/// explodes, all added up.
///
/// The result is the die of the chain of faces that was drawn. A chain that is
/// still exploding after `MAX_EXPLOSIONS` added faces is given up. The
/// unskilled never explode, so their roll cannot fail.
pub fn roll_d10_with_explosion(mode: ExplosionMode, rng: &mut StdRng) -> (result: Result<
    DieResult,
    SimulationError,
>)
    ensures
        result matches Ok(die) ==> is_roll_outcome(mode, die) && within_mode(mode, die),
        result matches Err(error) ==> error == SimulationError::ExplosionLimitExceeded && exists|
            faces: Seq<int>,
        | #[trigger] is_runaway_chain(mode, faces),
        mode == ExplosionMode::Unskilled ==> result is Ok,
{
    let first_roll = draw_face(rng);
    let mut total: i32 = first_roll;
    let mut exploded = false;
    let mut explode_again = should_explode(first_roll, mode);
    let mut added: u32 = 0;
    let ghost mut faces: Seq<int> = seq![first_roll as int];
    proof {
        assert(faces.drop_last() =~= Seq::<int>::empty());
        assert(faces_sum(faces.drop_last()) == 0);
    }
    while explode_again
        invariant
            is_chain(mode, faces),
            faces.len() == added + 1,
            added <= MAX_EXPLOSIONS,
            total == faces_sum(faces),
            1 <= total <= DIE_FACES * faces.len(),
            exploded == (faces.len() > 1),
            explode_again == explodes(faces.last(), mode),
        decreases MAX_EXPLOSIONS - added,
    {
        if added >= MAX_EXPLOSIONS {
            assert(is_runaway_chain(mode, faces));
            return Err(SimulationError::ExplosionLimitExceeded);
        }
        let next_roll = draw_face(rng);
        proof {
            let longer = faces.push(next_roll as int);
            assert(longer.drop_last() =~= faces);
            faces = longer;
        }
        total = total + next_roll;
        exploded = true;
        explode_again = should_explode(next_roll, mode);
        added = added + 1;
    }
    let die = DieResult::new(total, exploded);
    proof {
        assert(is_finished_chain(mode, faces));
        assert(die == die_of(faces));
        lemma_roll_outcome_within_mode(mode, die);
    }
    Ok(die)
}

/// A list of faces as numbers without a limit.
pub open spec fn as_chain(faces: Seq<i32>) -> Seq<int> {
    faces.map_values(|face: i32| face as int)
}

/// The die that the given faces give, drawn in this order, where they are the
/// faces of one die that has come to rest: faces of the die, each but the last
/// exploding, and no more than the longest chain.
pub fn die_from_faces(mode: ExplosionMode, faces: &[i32]) -> (die: Option<DieResult>)
    ensures
        die == if is_finished_chain(mode, as_chain(faces@)) {
            Some(die_of(as_chain(faces@)))
        } else {
            None
        },
        die matches Some(rolled) ==> is_roll_outcome(mode, rolled) && within_mode(mode, rolled),
{
    let ghost chain = as_chain(faces@);
    let length = faces.len();
    if length < 1 || length > MAX_EXPLOSIONS as usize + 1 {
        return None;
    }
    let mut total: i32 = 0;
    let mut i: usize = 0;
    assert(chain.take(0) =~= Seq::<int>::empty());
    while i < length
        invariant
            chain == as_chain(faces@),
            length == faces@.len(),
            1 <= length <= MAX_EXPLOSIONS + 1,
            0 <= i <= length,
            total == faces_sum(chain.take(i as int)),
            0 <= total <= DIE_FACES * i,
            forall|j: int| 0 <= j < i ==> 1 <= #[trigger] chain[j] <= DIE_FACES,
            forall|j: int| 0 <= j < i && j < length - 1 ==> explodes(#[trigger] chain[j], mode),
            i == length ==> !explodes(chain.last(), mode),
        decreases length - i,
    {
        let face = faces[i];
        assert(chain[i as int] == face);
        if face < 1 || face > DIE_FACES {
            return None;
        }
        if should_explode(face, mode) != (i + 1 < length) {
            return None;
        }
        proof {
            assert(chain.take(i + 1).drop_last() =~= chain.take(i as int));
        }
        total = total + face;
        i = i + 1;
    }
    assert(chain.take(length as int) =~= chain);
    let die = DieResult::new(total, length > 1);
    proof {
        assert(is_finished_chain(mode, chain) && die == die_of(chain));
        lemma_roll_outcome_within_mode(mode, die);
    }
    Some(die)
}

/// Whether emphasis rolls a die again: it shows a 1 and did not explode.
pub open spec fn needs_reroll(die: DieResult) -> bool {
    !die.exploded && die.value == 1
}

/// Applies emphasis to a pool: every die that shows a 1 and did not explode is
/// rolled again, once, in place. All other dice, and the order, stay.
///
/// Where a roll is given up, the dice before it have been dealt with and the
/// rest of the pool is as it was.
pub fn apply_emphasis(dice: &mut Vec<DieResult>, mode: ExplosionMode, rng: &mut StdRng) -> (result:
    Result<(), SimulationError>)
    ensures
        final(dice)@.len() == old(dice)@.len(),
        forall|i: int|
            0 <= i < old(dice)@.len() && !needs_reroll(#[trigger] old(dice)@[i]) ==> final(dice)@[i]
                == old(dice)@[i],
        result is Ok ==> forall|i: int|
            0 <= i < old(dice)@.len() && needs_reroll(#[trigger] old(dice)@[i]) ==> is_roll_outcome(
                mode,
                final(dice)@[i],
            ),
        result matches Err(error) ==> error == SimulationError::ExplosionLimitExceeded && exists|
            stop: int,
        |
            {
                &&& 0 <= stop < old(dice)@.len()
                &&& needs_reroll(#[trigger] old(dice)@[stop])
                &&& forall|i: int|
                    0 <= i < stop && needs_reroll(#[trigger] old(dice)@[i]) ==> is_roll_outcome(
                        mode,
                        final(dice)@[i],
                    )
                &&& forall|i: int|
                    stop <= i < old(dice)@.len() ==> final(dice)@[i] == #[trigger] old(dice)@[i]
            },
        mode == ExplosionMode::Unskilled ==> result is Ok,
{
    let mut i: usize = 0;
    while i < dice.len()
        invariant
            0 <= i <= dice@.len(),
            dice@.len() == old(dice)@.len(),
            forall|j: int|
                0 <= j < i && !needs_reroll(#[trigger] old(dice)@[j]) ==> dice@[j] == old(dice)@[j],
            forall|j: int|
                0 <= j < i && needs_reroll(#[trigger] old(dice)@[j]) ==> is_roll_outcome(
                    mode,
                    dice@[j],
                ),
            forall|j: int| i <= j < dice@.len() ==> dice@[j] == #[trigger] old(dice)@[j],
        decreases dice@.len() - i,
    {
        let die = dice[i];
        if !die.exploded && die.value == 1 {
            match roll_d10_with_explosion(mode, rng) {
                Ok(new_die) => {
                    dice.set(i, new_die);
                },
                Err(error) => {
                    assert(needs_reroll(old(dice)@[i as int]));
                    return Err(error);
                },
            }
        }
        i = i + 1;
    }
    Ok(())
}

/// The values of a pool of dice, in the order of the pool.
pub open spec fn values_of(dice: Seq<DieResult>) -> Seq<i32> {
    dice.map_values(|die: DieResult| die.value)
}

/// The sum of a list of values.
pub open spec fn values_sum(values: Seq<i32>) -> int
    decreases values.len(),
{
    if values.len() == 0 {
        0
    } else {
        values_sum(values.drop_last()) + values.last()
    }
}

/// The sum of the `keep` highest of `values`: the values are put in ascending
/// order and the last `keep` of them are added up. Which of several equal
/// values is kept makes no difference to the sum.
pub open spec fn keep_highest_sum(values: Seq<i32>, keep: int) -> int {
    let sorted = sorted_values(values);
    values_sum(sorted.skip(sorted.len() - keep))
}

/// The sum of the highest dice does not depend on the order of the pool, nor
/// on which of several equal dice is kept: two lists that hold the same values
/// equally often give the same sum.
pub proof fn lemma_keep_highest_ignores_order(first: Seq<i32>, second: Seq<i32>, keep: int)
    requires
        first.to_multiset() == second.to_multiset(),
    ensures
        keep_highest_sum(first, keep) == keep_highest_sum(second, keep),
{
    lemma_sorted_values(first);
    lemma_ascending_is_sorted_values(sorted_values(first), second);
}

/// A list of values within `low..=high` adds up to between `low` and `high`
/// for each value.
proof fn lemma_values_sum_bounds(values: Seq<i32>, low: int, high: int)
    requires
        forall|i: int| 0 <= i < values.len() ==> low <= #[trigger] values[i] <= high,
    ensures
        low * values.len() <= values_sum(values) <= high * values.len(),
    decreases values.len(),
{
    if values.len() > 0 {
        lemma_values_sum_bounds(values.drop_last(), low, high);
        assert(low * values.len() == low * (values.len() - 1) + low) by (nonlinear_arith);
        assert(high * values.len() == high * (values.len() - 1) + high) by (nonlinear_arith);
    }
}

/// Where every value lies within `low..=high`, the `keep` highest add up to
/// between `keep` times `low` and `keep` times `high`.
pub proof fn lemma_keep_highest_bounds(values: Seq<i32>, keep: int, low: int, high: int)
    requires
        0 <= keep <= values.len(),
        forall|i: int| 0 <= i < values.len() ==> low <= #[trigger] values[i] <= high,
    ensures
        low * keep <= keep_highest_sum(values, keep) <= high * keep,
{
    lemma_sorted_values(values);
    let sorted = sorted_values(values);
    let kept = sorted.skip(sorted.len() - keep);
    assert forall|i: int| 0 <= i < kept.len() implies low <= #[trigger] kept[i] <= high by {
        let value = sorted[sorted.len() - keep + i];
        assert(kept[i] == value);
        to_multiset_contains(sorted, value);
        to_multiset_contains(values, value);
        assert(sorted.contains(value));
        let at = choose|at: int| 0 <= at < values.len() && values[at] == value;
        assert(low <= values[at] <= high);
    }
    lemma_values_sum_bounds(kept, low, high);
}

/// Adds up the `keep` highest values of a pool of dice.
pub fn keep_highest_total(dice: &Vec<DieResult>, keep: usize) -> (total: i32)
    requires
        keep <= dice@.len(),
        i32::MIN <= keep_highest_sum(values_of(dice@), keep as int) <= i32::MAX,
    ensures
        total == keep_highest_sum(values_of(dice@), keep as int),
{
    let mut values: Vec<i32> = Vec::new();
    let mut i: usize = 0;
    while i < dice.len()
        invariant
            0 <= i <= dice@.len(),
            values@ == values_of(dice@).take(i as int),
        decreases dice@.len() - i,
    {
        values.push(dice[i].value);
        assert(values@ =~= values_of(dice@).take(i + 1));
        i = i + 1;
    }
    assert(values@ =~= values_of(dice@));
    let sorted = sort_ascending(&values);
    let start: usize = sorted.len() - keep;
    let ghost kept = sorted@.skip(start as int);
    let mut sum: i128 = 0;
    let mut taken: usize = 0;
    assert(kept.take(0) =~= Seq::<i32>::empty());
    while taken < keep
        invariant
            0 <= taken <= keep,
            start + keep == sorted@.len() <= usize::MAX,
            kept == sorted@.skip(start as int),
            sum == values_sum(kept.take(taken as int)),
            -0x8000_0000 * taken <= sum <= 0x8000_0000 * taken,
        decreases keep - taken,
    {
        let value: i32 = sorted[start + taken];
        proof {
            assert(kept.take(taken + 1).drop_last() =~= kept.take(taken as int));
            assert(kept.take(taken + 1).last() == value);
        }
        sum = sum + value as i128;
        taken = taken + 1;
    }
    assert(kept.take(keep as int) =~= kept);
    sum as i32
}

/// Whether `dice` can be the pool of one trial: as many dice as the
/// configuration rolls, each an outcome of a roll in its mode.
pub open spec fn is_pool(config: RollConfig, dice: Seq<DieResult>) -> bool {
    &&& dice.len() == config.roll
    &&& forall|i: int|
        0 <= i < dice.len() ==> is_roll_outcome(config.explosion_mode, #[trigger] dice[i])
}

/// Whether `total` can come out of one trial: it is the sum of the highest dice
/// of some pool.
pub open spec fn is_trial_outcome(config: RollConfig, total: i32) -> bool {
    exists|dice: Seq<DieResult>| #[trigger]
        is_pool(config, dice) && total == keep_highest_sum(values_of(dice), config.keep as int)
}

/// A trial gives at least 1 for each die kept, and no more than the largest
/// value for each.
pub proof fn lemma_trial_outcome_bounds(config: RollConfig, total: i32)
    requires
        config.valid(),
        is_trial_outcome(config, total),
    ensures
        config.keep <= total <= MAX_DIE_VALUE * config.keep,
{
    let dice = choose|dice: Seq<DieResult>| #[trigger]
        is_pool(config, dice) && total == keep_highest_sum(values_of(dice), config.keep as int);
    lemma_pool_sum_bounds(config, dice);
}

/// The highest dice of a pool add up to at least 1 and at most the largest
/// value for each die kept.
proof fn lemma_pool_sum_bounds(config: RollConfig, dice: Seq<DieResult>)
    requires
        config.valid(),
        is_pool(config, dice),
    ensures
        config.keep <= keep_highest_sum(values_of(dice), config.keep as int) <= MAX_DIE_VALUE
            * config.keep,
{
    let values = values_of(dice);
    assert forall|i: int| 0 <= i < values.len() implies 1 <= #[trigger] values[i]
        <= MAX_DIE_VALUE by {
        lemma_roll_outcome_within_mode(config.explosion_mode, dice[i]);
    }
    lemma_keep_highest_bounds(values, config.keep as int, 1, MAX_DIE_VALUE as int);
}

/// Simulates one trial: rolls the pool, applies emphasis where the
/// configuration has it, and adds up the highest dice.
///
/// The total is at least the number of dice kept. A trial fails only where a
/// die is given up; with unskilled dice it cannot.
pub fn simulate_single_roll(config: &RollConfig, rng: &mut StdRng) -> (result: Result<
    i32,
    SimulationError,
>)
    requires
        config.valid(),
    ensures
        result matches Ok(total) ==> is_trial_outcome(*config, total) && config.keep <= total
            <= MAX_DIE_VALUE * config.keep,
        result matches Err(error) ==> error == SimulationError::ExplosionLimitExceeded,
        config.explosion_mode == ExplosionMode::Unskilled ==> result is Ok,
{
    let mut dice: Vec<DieResult> = Vec::new();
    let mut rolled: u8 = 0;
    while rolled < config.roll
        invariant
            0 <= rolled <= config.roll,
            dice@.len() == rolled,
            forall|i: int|
                0 <= i < dice@.len() ==> is_roll_outcome(config.explosion_mode, #[trigger] dice@[i]),
        decreases config.roll - rolled,
    {
        match roll_d10_with_explosion(config.explosion_mode, rng) {
            Ok(die) => {
                dice.push(die);
            },
            Err(error) => {
                return Err(error);
            },
        }
        rolled = rolled + 1;
    }
    if config.emphasis {
        let ghost before = dice@;
        match apply_emphasis(&mut dice, config.explosion_mode, rng) {
            Ok(()) => {},
            Err(error) => {
                return Err(error);
            },
        }
        assert forall|i: int| 0 <= i < dice@.len() implies is_roll_outcome(
            config.explosion_mode,
            #[trigger] dice@[i],
        ) by {
            if !needs_reroll(before[i]) {
                assert(dice@[i] == before[i]);
            }
        }
    }
    proof {
        assert(is_pool(*config, dice@));
        lemma_pool_sum_bounds(*config, dice@);
    }
    let total = keep_highest_total(&dice, config.keep as usize);
    Ok(total)
}

/// What every histogram of a finished simulation satisfies: it holds as many
/// trials as the mode asks for, and each outcome in it was seen at least once
/// and can come out of a trial.
pub open spec fn is_simulation_of(config: RollConfig, histogram: Map<i32, usize>) -> bool {
    &&& count_sum(histogram) == config.spec_simulation_rounds()
    &&& forall|outcome: i32| #[trigger]
        histogram.contains_key(outcome) ==> histogram[outcome] >= 1 && is_trial_outcome(
            config,
            outcome,
        ) && config.keep <= outcome <= MAX_DIE_VALUE * config.keep
}

/// Runs the trials of a configuration on the given generator and tallies their
/// totals.
///
/// The number of trials is that of the configuration's mode. The simulation
/// fails only where a die is given up; with unskilled dice it cannot.
pub fn simulate_roll_xky_with_rng(config: &RollConfig, rng: &mut StdRng) -> (result: Result<
    HashMap<i32, usize>,
    SimulationError,
>)
    requires
        config.valid(),
    ensures
        result matches Ok(histogram) ==> is_simulation_of(*config, histogram@),
        result matches Err(error) ==> error == SimulationError::ExplosionLimitExceeded,
        config.explosion_mode == ExplosionMode::Unskilled ==> result is Ok,
{
    let rounds = config.simulation_rounds();
    let mut histogram: HashMap<i32, usize> = HashMap::new();
    let mut done: usize = 0;
    proof {
        lemma_count_sum_empty();
    }
    while done < rounds
        invariant
            config.valid(),
            rounds == config.spec_simulation_rounds(),
            0 <= done <= rounds <= 500_000,
            count_sum(histogram@) == done,
            forall|outcome: i32| #[trigger]
                histogram@.contains_key(outcome) ==> histogram@[outcome] >= 1 && is_trial_outcome(
                    *config,
                    outcome,
                ) && config.keep <= outcome <= MAX_DIE_VALUE * config.keep,
        decreases rounds - done,
    {
        match simulate_single_roll(config, rng) {
            Ok(total) => {
                record_outcome(&mut histogram, total);
            },
            Err(error) => {
                return Err(error);
            },
        }
        done = done + 1;
    }
    Ok(histogram)
}

/// Runs the trials of a configuration on a generator seeded by the operating
/// system and tallies their totals.
pub fn simulate_roll_xky(config: &RollConfig) -> (result: Result<
    HashMap<i32, usize>,
    SimulationError,
>)
    requires
        config.valid(),
    ensures
        result matches Ok(histogram) ==> is_simulation_of(*config, histogram@),
        result matches Err(error) ==> error == SimulationError::ExplosionLimitExceeded,
        config.explosion_mode == ExplosionMode::Unskilled ==> result is Ok,
{
    let mut rng = entropy_rng();
    simulate_roll_xky_with_rng(config, &mut rng)
}

} // verus!
