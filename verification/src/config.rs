//! Roll configurations: which pool is thrown and how its dice behave.

use vstd::prelude::*;

verus! {

/// Most dice that a pool rolls.
pub const MAX_POOL: u8 = 10;

/// Number of pools `roll`k`keep` with `1 <= keep <= roll <= 10`.
pub const POOL_COUNT: usize = 55;

/// Number of configurations: every pool, in every mode, with and without emphasis.
pub const CONFIG_COUNT: usize = 330;

/// Which faces of a ten-sided die make it roll again and add up.
#[derive(Debug, Clone, Copy, PartialEq, Eq, Structural, Hash)]
pub enum ExplosionMode {
    /// No face explodes.
    Unskilled,
    /// A 10 explodes.
    Skilled,
    /// A 9 or a 10 explodes.
    Mastery,
}

impl ExplosionMode {
    /// Number of trials simulated for a configuration in this mode. Modes with
    /// longer tails get more trials.
    pub open spec fn spec_simulation_rounds(&self) -> usize {
        match self {
            ExplosionMode::Unskilled => 200_000,
            ExplosionMode::Skilled => 300_000,
            ExplosionMode::Mastery => 500_000,
        }
    }

    /// Number of trials simulated for a configuration in this mode.
    #[verifier::when_used_as_spec(spec_simulation_rounds)]
    pub fn simulation_rounds(&self) -> (rounds: usize)
        ensures
            rounds == self.spec_simulation_rounds(),
            200_000 <= rounds <= 500_000,
    {
        match self {
            ExplosionMode::Unskilled => 200_000,
            ExplosionMode::Skilled => 300_000,
            ExplosionMode::Mastery => 500_000,
        }
    }

    /// Position of the mode in the order in which configurations are generated.
    pub open spec fn ordinal(self) -> int {
        match self {
            ExplosionMode::Unskilled => 0,
            ExplosionMode::Skilled => 1,
            ExplosionMode::Mastery => 2,
        }
    }
}

/// Why a pool was refused.
#[derive(Debug, Clone, Copy, PartialEq, Eq, Structural)]
pub enum ConfigError {
    /// The number of dice rolled is not in `1..=10`.
    RollOutOfRange,
    /// The number of dice kept is not in `1..=roll`.
    KeepOutOfRange,
}

/// One roll type: `roll` dice thrown, the `keep` highest summed.
#[derive(Debug, Clone, Copy, PartialEq, Eq, Structural, Hash)]
pub struct RollConfig {
    /// Dice rolled, `1..=10`.
    pub roll: u8,
    /// Dice kept, `1..=roll`.
    pub keep: u8,
    /// Which faces explode.
    pub explosion_mode: ExplosionMode,
    /// Whether non-exploded ones are re-rolled before the highest are kept.
    pub emphasis: bool,
}

/// Whether `roll` and `keep` describe a pool: `1 <= keep <= roll <= 10`.
pub open spec fn valid_pool(roll: int, keep: int) -> bool {
    1 <= keep <= roll <= MAX_POOL
}

impl RollConfig {
    /// The invariant of a configuration.
    pub open spec fn valid(&self) -> bool {
        valid_pool(self.roll as int, self.keep as int)
    }

    /// Builds a configuration from a pool that is known to be valid.
    pub fn new(roll: u8, keep: u8, explosion_mode: ExplosionMode, emphasis: bool) -> (config: Self)
        requires
            valid_pool(roll as int, keep as int),
        ensures
            config == (RollConfig { roll, keep, explosion_mode, emphasis }),
            config.valid(),
    {
        RollConfig { roll, keep, explosion_mode, emphasis }
    }

    /// Builds a configuration, refusing a pool that is not valid. The size of the
    /// pool is judged first.
    pub fn try_new(roll: u8, keep: u8, explosion_mode: ExplosionMode, emphasis: bool) -> (result:
        Result<Self, ConfigError>)
        ensures
            valid_pool(roll as int, keep as int) <==> result is Ok,
            result matches Ok(config) ==> config == (RollConfig {
                roll,
                keep,
                explosion_mode,
                emphasis,
            }),
            result matches Err(e) ==> (e == ConfigError::RollOutOfRange <==> !(1 <= roll
                <= MAX_POOL)),
    {
        if roll < 1 || roll > MAX_POOL {
            Err(ConfigError::RollOutOfRange)
        } else if keep < 1 || keep > roll {
            Err(ConfigError::KeepOutOfRange)
        } else {
            Ok(RollConfig { roll, keep, explosion_mode, emphasis })
        }
    }

    /// Number of trials simulated for this configuration.
    pub open spec fn spec_simulation_rounds(&self) -> usize {
        self.explosion_mode.spec_simulation_rounds()
    }

    /// Number of trials simulated for this configuration: that of its mode.
    #[verifier::when_used_as_spec(spec_simulation_rounds)]
    pub fn simulation_rounds(&self) -> (rounds: usize)
        ensures
            rounds == self.spec_simulation_rounds(),
    {
        self.explosion_mode.simulation_rounds()
    }
}

/// Number of pools that roll fewer than `roll` dice.
pub open spec fn pools_before(roll: int) -> int
    decreases roll,
{
    if roll <= 1 {
        0
    } else {
        pools_before(roll - 1) + (roll - 1)
    }
}

impl RollConfig {
    /// Position of the configuration among all configurations: by dice rolled,
    /// then by dice kept, then by mode, then without emphasis before with it.
    pub open spec fn index(self) -> int {
        (pools_before(self.roll as int) + self.keep - 1) * 6 + self.explosion_mode.ordinal() * 2
            + if self.emphasis {
            1int
        } else {
            0int
        }
    }
}

/// How many of `configs` have the given mode.
pub open spec fn count_mode(configs: Seq<RollConfig>, mode: ExplosionMode) -> int
    decreases configs.len(),
{
    if configs.len() == 0 {
        0
    } else {
        count_mode(configs.drop_last(), mode) + if configs.last().explosion_mode == mode {
            1int
        } else {
            0int
        }
    }
}

/// How many of `configs` have emphasis set as given.
pub open spec fn count_emphasis(configs: Seq<RollConfig>, emphasis: bool) -> int
    decreases configs.len(),
{
    if configs.len() == 0 {
        0
    } else {
        count_emphasis(configs.drop_last(), emphasis) + if configs.last().emphasis == emphasis {
            1int
        } else {
            0int
        }
    }
}

/// Appends one configuration, keeping count.
fn push_config(configs: &mut Vec<RollConfig>, config: RollConfig)
    ensures
        final(configs)@ == old(configs)@.push(config),
        forall|mode: ExplosionMode| #[trigger]
            count_mode(final(configs)@, mode) == count_mode(old(configs)@, mode) + if mode
                == config.explosion_mode {
                1int
            } else {
                0int
            },
        forall|emphasis: bool| #[trigger]
            count_emphasis(final(configs)@, emphasis) == count_emphasis(old(configs)@, emphasis)
                + if emphasis == config.emphasis {
                1int
            } else {
                0int
            },
{
    configs.push(config);
    assert(configs@.drop_last() =~= old(configs)@);
}

/// Appends the six configurations of one pool: each mode, without emphasis and
/// with it.
fn push_pool(configs: &mut Vec<RollConfig>, roll: u8, keep: u8)
    requires
        valid_pool(roll as int, keep as int),
        old(configs)@.len() == (pools_before(roll as int) + keep - 1) * 6,
    ensures
        final(configs)@.len() == old(configs)@.len() + 6,
        final(configs)@.take(old(configs)@.len() as int) == old(configs)@,
        forall|i: int|
            old(configs)@.len() <= i < final(configs)@.len() ==> {
                let config = #[trigger] final(configs)@[i];
                config.valid() && config.roll == roll && config.keep == keep && config.index() == i
            },
        forall|mode: ExplosionMode| #[trigger]
            count_mode(final(configs)@, mode) == count_mode(old(configs)@, mode) + 2,
        forall|emphasis: bool| #[trigger]
            count_emphasis(final(configs)@, emphasis) == count_emphasis(old(configs)@, emphasis) + 3,
{
    push_config(configs, RollConfig::new(roll, keep, ExplosionMode::Unskilled, false));
    push_config(configs, RollConfig::new(roll, keep, ExplosionMode::Unskilled, true));
    push_config(configs, RollConfig::new(roll, keep, ExplosionMode::Skilled, false));
    push_config(configs, RollConfig::new(roll, keep, ExplosionMode::Skilled, true));
    push_config(configs, RollConfig::new(roll, keep, ExplosionMode::Mastery, false));
    push_config(configs, RollConfig::new(roll, keep, ExplosionMode::Mastery, true));
    assert(configs@.take(old(configs)@.len() as int) =~= old(configs)@);
}

/// Whether `configs` holds every configuration of a pool before `roll`k`keep`,
/// each at its position, and nothing else.
spec fn lists_pools_before(configs: Seq<RollConfig>, roll: int, keep: int) -> bool {
    &&& configs.len() == (pools_before(roll) + keep - 1) * 6
    &&& forall|i: int|
        0 <= i < configs.len() ==> (#[trigger] configs[i]).valid() && configs[i].index() == i
    &&& forall|config: RollConfig|
        config.valid() && (config.roll < roll || (config.roll == roll && config.keep < keep)) ==> 0
            <= #[trigger] config.index() < configs.len() && configs[config.index()] == config
}

/// Generates every configuration: every pool `roll`k`keep` with
/// `1 <= keep <= roll <= 10`, in every mode, without emphasis and with it.
///
/// There are 330 of them, each valid and each once: 110 for each mode, 165
/// with emphasis and 165 without. They come ordered by dice rolled, then by
/// dice kept, then by mode, then without emphasis before with it.
pub fn generate_all_configs() -> (configs: Vec<RollConfig>)
    ensures
        configs@.len() == CONFIG_COUNT,
        forall|i: int|
            0 <= i < configs@.len() ==> (#[trigger] configs@[i]).valid() && configs@[i].index() == i,
        forall|config: RollConfig|
            config.valid() ==> 0 <= #[trigger] config.index() < CONFIG_COUNT
                && configs@[config.index()] == config,
        configs@.no_duplicates(),
        forall|mode: ExplosionMode| #[trigger] count_mode(configs@, mode) == 110,
        forall|emphasis: bool| #[trigger] count_emphasis(configs@, emphasis) == 165,
{
    let mut configs: Vec<RollConfig> = Vec::with_capacity(CONFIG_COUNT);
    let mut roll: u8 = 1;
    while roll <= MAX_POOL
        invariant
            1 <= roll <= MAX_POOL + 1,
            lists_pools_before(configs@, roll as int, 1),
            forall|mode: ExplosionMode| #[trigger]
                count_mode(configs@, mode) == 2 * pools_before(roll as int),
            forall|emphasis: bool| #[trigger]
                count_emphasis(configs@, emphasis) == 3 * pools_before(roll as int),
        decreases MAX_POOL + 1 - roll,
    {
        let mut keep: u8 = 1;
        while keep <= roll
            invariant
                1 <= roll <= MAX_POOL,
                1 <= keep <= roll + 1,
                lists_pools_before(configs@, roll as int, keep as int),
                forall|mode: ExplosionMode| #[trigger]
                    count_mode(configs@, mode) == 2 * (pools_before(roll as int) + keep - 1),
                forall|emphasis: bool| #[trigger]
                    count_emphasis(configs@, emphasis) == 3 * (pools_before(roll as int) + keep
                        - 1),
            decreases roll + 1 - keep,
        {
            let ghost before = configs@;
            push_pool(&mut configs, roll, keep);
            proof {
                assert forall|config: RollConfig|
                    config.valid() && (config.roll < roll || (config.roll == roll && config.keep
                        < keep + 1)) implies 0 <= #[trigger] config.index() < configs@.len()
                    && configs@[config.index()] == config by {
                    if config.roll == roll && config.keep == keep {
                        let at = config.index();
                        assert(before.len() <= at < configs@.len());
                        let found = configs@[at];
                        assert(found.index() == at);
                        assert(found.roll == roll && found.keep == keep);
                        assert(found.explosion_mode.ordinal() * 2 + (if found.emphasis {
                            1int
                        } else {
                            0int
                        }) == config.explosion_mode.ordinal() * 2 + (if config.emphasis {
                            1int
                        } else {
                            0int
                        }));
                    } else {
                        assert(before[config.index()] == config);
                        assert(configs@.take(before.len() as int)[config.index()] == config);
                    }
                }
                assert forall|i: int| 0 <= i < configs@.len() implies (#[trigger] configs@[i]).valid()
                    && configs@[i].index() == i by {
                    if i < before.len() {
                        assert(configs@.take(before.len() as int)[i] == before[i]);
                    }
                }
            }
            keep = keep + 1;
        }
        roll = roll + 1;
    }
    proof {
        reveal_with_fuel(pools_before, 12);
        assert(pools_before(11) == 55);
        assert forall|i: int, j: int|
            0 <= i < configs@.len() && 0 <= j < configs@.len() && i != j implies configs@[i]
            != configs@[j] by {
            assert(configs@[i].index() == i);
            assert(configs@[j].index() == j);
        }
    }
    configs
}

} // verus!
