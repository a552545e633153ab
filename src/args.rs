use vstd::prelude::*;

verus! {

/// Parameters of a simulation run.
pub struct ProgArgs {
    /// Number of bots to create.
    pub bots: u8,
    /// Delay between ticks, in milliseconds.
    pub tick_delay: u128,
    /// How many squares around itself a bot can see.
    pub sight: u16,
    /// Number of ticks an eaten food tile takes to regrow.
    pub regrow_time: u16,
    /// Probability, in percent, that a tile grows food.
    pub food_prob: u8,
}

} // verus!
