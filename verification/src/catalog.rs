use vstd::prelude::*;

verus! {

/// A named seed pattern that a picker can offer; `ToggleCell` stands for
/// direct single-cell editing instead of a stamped pattern.
#[derive(PartialEq, Eq, Structural, Debug, Clone)]
pub enum Pattern {
    ToggleCell,
    Glider,
    Pulsar,
    Pentadecathlon,
    LWSS,
    MWSS,
    HWSS,
    GosperGliderGun,
    RPentamino,
    Diehard,
    Acorn,
    Sawtooth1212,
    Homer,
    DRHOscillators,
    C3Ladder,
    C4Ladder,
    QuadraticGrowth,
    P200Oscillator,
    LFODMisc,
}

impl Pattern {
    /// The pattern's display name.
    pub fn to_string(&self) -> (r: String)
        ensures
            r@ == self.spec_name(),
    {
        match self {
            Pattern::ToggleCell => "Toggle Cell".to_owned(),
            Pattern::Glider => "Glider".to_owned(),
            Pattern::Pulsar => "Pulsar".to_owned(),
            Pattern::Pentadecathlon => "Pentadecathlon".to_owned(),
            Pattern::LWSS => "Leightweight spaceship".to_owned(),
            Pattern::MWSS => "Middleweight spaceship".to_owned(),
            Pattern::HWSS => "Heavyweight spaceship".to_owned(),
            Pattern::GosperGliderGun => "Gosper glider gun".to_owned(),
            Pattern::RPentamino => "R-pentamino".to_owned(),
            Pattern::Diehard => "Diehard".to_owned(),
            Pattern::Acorn => "Acorn".to_owned(),
            Pattern::Sawtooth1212 => "Sawtooth 1212".to_owned(),
            Pattern::Homer => "Homer".to_owned(),
            Pattern::DRHOscillators => "Oscillator collection".to_owned(),
            Pattern::C3Ladder => "c/3 ladder".to_owned(),
            Pattern::C4Ladder => "c/4 ladder".to_owned(),
            Pattern::QuadraticGrowth => "Quadratic growth".to_owned(),
            Pattern::P200Oscillator => "p200 oscillator".to_owned(),
            Pattern::LFODMisc => "Miscellaneous".to_owned(),
        }
    }

    /// The pattern's display name.
    pub open spec fn spec_name(&self) -> Seq<char> {
        match self {
            Pattern::ToggleCell => "Toggle Cell"@,
            Pattern::Glider => "Glider"@,
            Pattern::Pulsar => "Pulsar"@,
            Pattern::Pentadecathlon => "Pentadecathlon"@,
            Pattern::LWSS => "Leightweight spaceship"@,
            Pattern::MWSS => "Middleweight spaceship"@,
            Pattern::HWSS => "Heavyweight spaceship"@,
            Pattern::GosperGliderGun => "Gosper glider gun"@,
            Pattern::RPentamino => "R-pentamino"@,
            Pattern::Diehard => "Diehard"@,
            Pattern::Acorn => "Acorn"@,
            Pattern::Sawtooth1212 => "Sawtooth 1212"@,
            Pattern::Homer => "Homer"@,
            Pattern::DRHOscillators => "Oscillator collection"@,
            Pattern::C3Ladder => "c/3 ladder"@,
            Pattern::C4Ladder => "c/4 ladder"@,
            Pattern::QuadraticGrowth => "Quadratic growth"@,
            Pattern::P200Oscillator => "p200 oscillator"@,
            Pattern::LFODMisc => "Miscellaneous"@,
        }
    }
}

/// A named birth/survival rule of the two-state automaton family.
#[derive(PartialEq, Eq, Structural, Debug, Clone)]
pub enum RuleSet {
    LifeWithoutDeath,
    Conway,
    DayAndNight,
    LiveFreeOrDie,
}

impl RuleSet {
    /// The live-neighbor counts that make a dead cell become alive under
    /// this rule.
    pub fn births(&self) -> (r: Vec<u32>)
        ensures
            r@ == self.spec_births(),
            forall|i: int| 0 <= i < r@.len() ==> r@[i] <= 8,
    {
        let r: Vec<u32> = match self {
            RuleSet::Conway => vec![3],
            RuleSet::LifeWithoutDeath => vec![3],
            RuleSet::DayAndNight => vec![3, 6, 7, 8],
            RuleSet::LiveFreeOrDie => vec![2],
        };
        proof {
            assert(r@ =~= self.spec_births());
        }
        r
    }

    /// The live-neighbor counts that make a dead cell become alive under
    /// this rule.
    pub open spec fn spec_births(&self) -> Seq<u32> {
        match self {
            RuleSet::Conway => seq![3u32],
            RuleSet::LifeWithoutDeath => seq![3u32],
            RuleSet::DayAndNight => seq![3u32, 6u32, 7u32, 8u32],
            RuleSet::LiveFreeOrDie => seq![2u32],
        }
    }

    /// The live-neighbor counts that keep a live cell alive under this rule.
    pub fn survivals(&self) -> (r: Vec<u32>)
        ensures
            r@ == self.spec_survivals(),
            forall|i: int| 0 <= i < r@.len() ==> r@[i] <= 8,
    {
        let r: Vec<u32> = match self {
            RuleSet::Conway => vec![2, 3],
            RuleSet::LifeWithoutDeath => vec![0, 1, 2, 3, 4, 5, 6, 7, 8],
            RuleSet::DayAndNight => vec![3, 4, 6, 7, 8],
            RuleSet::LiveFreeOrDie => vec![0],
        };
        proof {
            assert(r@ =~= self.spec_survivals());
        }
        r
    }

    /// The live-neighbor counts that keep a live cell alive under this rule.
    pub open spec fn spec_survivals(&self) -> Seq<u32> {
        match self {
            RuleSet::Conway => seq![2u32, 3u32],
            RuleSet::LifeWithoutDeath => seq![
                0u32,
                1u32,
                2u32,
                3u32,
                4u32,
                5u32,
                6u32,
                7u32,
                8u32,
            ],
            RuleSet::DayAndNight => seq![3u32, 4u32, 6u32, 7u32, 8u32],
            RuleSet::LiveFreeOrDie => seq![0u32],
        }
    }

    /// The rule's display name, in B/S notation.
    pub fn to_string(&self) -> (r: String)
        ensures
            r@ == self.spec_name(),
    {
        match self {
            RuleSet::Conway => "Conway - B3/S23".to_owned(),
            RuleSet::LifeWithoutDeath => "Life without death - B3/S012345678".to_owned(),
            RuleSet::DayAndNight => "Day & Night - B3678/S34678".to_owned(),
            RuleSet::LiveFreeOrDie => "Live Free Or Die - B2/S0".to_owned(),
        }
    }

    /// The rule's display name, in B/S notation.
    pub open spec fn spec_name(&self) -> Seq<char> {
        match self {
            RuleSet::Conway => "Conway - B3/S23"@,
            RuleSet::LifeWithoutDeath => "Life without death - B3/S012345678"@,
            RuleSet::DayAndNight => "Day & Night - B3678/S34678"@,
            RuleSet::LiveFreeOrDie => "Live Free Or Die - B2/S0"@,
        }
    }
}

} // verus!
