use vstd::prelude::*;
use crate::token::str_eq;

verus! {

/// Number of principal variations requested from an engine, always in `1..=5`.
#[derive(Debug, Clone, Copy, PartialEq, Eq, Structural)]
pub struct MultiPv(u32);

/// Returned when a number outside `1..=5` is offered as a `MultiPv`.
#[derive(Debug, Clone, Copy, PartialEq, Eq, Structural)]
pub struct InvalidMultiPvError;

pub open spec fn multi_pv_in_range(n: int) -> bool {
    1 <= n <= 5
}

impl MultiPv {
    #[verifier::type_invariant]
    spec fn in_range(self) -> bool {
        multi_pv_in_range(self.0 as int)
    }

    /// The number of lines as a plain integer.
    pub closed spec fn spec_get(self) -> u32 {
        self.0
    }

    pub fn get(&self) -> (r: u32)
        ensures
            r == self.spec_get(),
            multi_pv_in_range(r as int),
    {
        proof {
            use_type_invariant(self);
        }
        self.0
    }

    pub fn new(n: u32) -> (r: Result<MultiPv, InvalidMultiPvError>)
        ensures
            multi_pv_in_range(n as int) <==> r is Ok,
            r matches Ok(m) ==> m.spec_get() == n,
    {
        if 1 <= n && n <= 5 {
            Ok(MultiPv(n))
        } else {
            Err(InvalidMultiPvError)
        }
    }

    /// A single line, the default.
    pub fn one() -> (r: MultiPv)
        ensures
            r.spec_get() == 1,
    {
        MultiPv(1)
    }

    pub fn as_usize(&self) -> (r: usize)
        ensures
            r == self.spec_get(),
            1 <= r <= 5,
    {
        proof {
            use_type_invariant(self);
        }
        self.0 as usize
    }
}

impl Default for MultiPv {
    fn default() -> (r: MultiPv)
        ensures
            r.spec_get() == 1,
    {
        MultiPv(1)
    }
}

impl TryFrom<u32> for MultiPv {
    type Error = InvalidMultiPvError;

    fn try_from(n: u32) -> (r: Result<MultiPv, InvalidMultiPvError>)
        ensures
            multi_pv_in_range(n as int) <==> r is Ok,
            r matches Ok(m) ==> m.spec_get() == n,
    {
        if 1 <= n && n <= 5 {
            Ok(MultiPv(n))
        } else {
            Err(InvalidMultiPvError)
        }
    }
}

impl vstd::std_specs::convert::TryFromSpecImpl<u32> for MultiPv {
    open spec fn obeys_try_from_spec() -> bool {
        true
    }

    closed spec fn try_from_spec(n: u32) -> Result<MultiPv, InvalidMultiPvError> {
        if multi_pv_in_range(n as int) {
            Ok(MultiPv(n))
        } else {
            Err(InvalidMultiPvError)
        }
    }
}

} // verus!

verus! {

/// The chess variants an engine can analyse.
#[derive(Debug, Clone, Copy, PartialEq, Eq, Structural, Hash)]
pub enum UciVariant {
    Chess,
    Antichess,
    Atomic,
    Crazyhouse,
    Horde,
    KingOfTheHill,
    RacingKings,
    ThreeCheck,
}

pub open spec fn variant_named(n: Seq<char>) -> Option<UciVariant> {
    if n == "chess"@ || n == "standard"@ || n == "chess960"@ || n == "fromPosition"@ {
        Some(UciVariant::Chess)
    } else if n == "antichess"@ {
        Some(UciVariant::Antichess)
    } else if n == "atomic"@ {
        Some(UciVariant::Atomic)
    } else if n == "crazyhouse"@ {
        Some(UciVariant::Crazyhouse)
    } else if n == "horde"@ {
        Some(UciVariant::Horde)
    } else if n == "kingofthehill"@ || n == "kingOfTheHill"@ {
        Some(UciVariant::KingOfTheHill)
    } else if n == "racingkings"@ || n == "racingKings"@ {
        Some(UciVariant::RacingKings)
    } else if n == "3check"@ || n == "threeCheck"@ {
        Some(UciVariant::ThreeCheck)
    } else {
        None
    }
}

pub open spec fn variant_name(v: UciVariant) -> Seq<char> {
    match v {
        UciVariant::Chess => "chess"@,
        UciVariant::Antichess => "antichess"@,
        UciVariant::Atomic => "atomic"@,
        UciVariant::Crazyhouse => "crazyhouse"@,
        UciVariant::Horde => "horde"@,
        UciVariant::KingOfTheHill => "kingofthehill"@,
        UciVariant::RacingKings => "racingkings"@,
        UciVariant::ThreeCheck => "3check"@,
    }
}

impl UciVariant {
    /// The variant a name stands for; besides the canonical names, the
    /// website's names and camel-case forms are accepted.
    pub fn parse(n: &str) -> (r: Option<UciVariant>)
        ensures
            r == variant_named(n@),
    {
        if str_eq(n, "chess") || str_eq(n, "standard") || str_eq(n, "chess960") || str_eq(n, "fromPosition") {
            Some(UciVariant::Chess)
        } else if str_eq(n, "antichess") {
            Some(UciVariant::Antichess)
        } else if str_eq(n, "atomic") {
            Some(UciVariant::Atomic)
        } else if str_eq(n, "crazyhouse") {
            Some(UciVariant::Crazyhouse)
        } else if str_eq(n, "horde") {
            Some(UciVariant::Horde)
        } else if str_eq(n, "kingofthehill") || str_eq(n, "kingOfTheHill") {
            Some(UciVariant::KingOfTheHill)
        } else if str_eq(n, "racingkings") || str_eq(n, "racingKings") {
            Some(UciVariant::RacingKings)
        } else if str_eq(n, "3check") || str_eq(n, "threeCheck") {
            Some(UciVariant::ThreeCheck)
        } else {
            None
        }
    }

    /// The canonical name, which `parse` reads back.
    pub fn name(&self) -> (r: &'static str)
        ensures
            r@ == variant_name(*self),
            variant_named(r@) == Some(*self),
    {
        proof {
            lemma_name_parses(*self);
        }
        match self {
            UciVariant::Chess => "chess",
            UciVariant::Antichess => "antichess",
            UciVariant::Atomic => "atomic",
            UciVariant::Crazyhouse => "crazyhouse",
            UciVariant::Horde => "horde",
            UciVariant::KingOfTheHill => "kingofthehill",
            UciVariant::RacingKings => "racingkings",
            UciVariant::ThreeCheck => "3check",
        }
    }
}

/// Every canonical name reads back as its variant.
pub proof fn lemma_name_parses(v: UciVariant)
    ensures
        variant_named(variant_name(v)) == Some(v),
{
    reveal_strlit("chess");
    reveal_strlit("standard");
    reveal_strlit("chess960");
    reveal_strlit("fromPosition");
    reveal_strlit("antichess");
    reveal_strlit("atomic");
    reveal_strlit("crazyhouse");
    reveal_strlit("horde");
    reveal_strlit("kingofthehill");
    reveal_strlit("kingOfTheHill");
    reveal_strlit("racingkings");
    reveal_strlit("racingKings");
    reveal_strlit("3check");
    reveal_strlit("threeCheck");
    assert("chess"@.len() == 5);
    assert("standard"@.len() == 8);
    assert("chess960"@.len() == 8);
    assert("fromPosition"@.len() == 12);
    assert("antichess"@.len() == 9);
    assert("atomic"@.len() == 6);
    assert("crazyhouse"@.len() == 10);
    assert("horde"@.len() == 5);
    assert("kingofthehill"@.len() == 13);
    assert("kingOfTheHill"@.len() == 13);
    assert("racingkings"@.len() == 11);
    assert("racingKings"@.len() == 11);
    assert("3check"@.len() == 6);
    assert("threeCheck"@.len() == 10);
    assert("chess"@[0] == 'c');
    assert("antichess"@[0] == 'a');
    assert("atomic"@[0] == 'a' && "atomic"@[1] == 't');
    assert("chess960"@[0] == 'c');
    assert("crazyhouse"@[0] == 'c' && "crazyhouse"@[1] == 'r');
    assert("kingofthehill"@[4] == 'o' && "kingOfTheHill"@[4] == 'O');
    assert("racingkings"@[6] == 'k' && "racingKings"@[6] == 'K');
    assert("threeCheck"@[0] == 't' && "standard"@[0] == 's');
    assert("3check"@[0] == '3');
    assert("fromPosition"@[0] == 'f');
}

/// Variant names as the website knows them; several collapse onto standard chess.
#[derive(Debug, Clone, Copy, PartialEq, Eq, Structural, Hash)]
pub enum LichessVariant {
    Antichess,
    Atomic,
    Chess960,
    Crazyhouse,
    FromPosition,
    Horde,
    KingOfTheHill,
    RacingKings,
    Standard,
    ThreeCheck,
}

pub open spec fn variant_of_lichess(v: LichessVariant) -> UciVariant {
    match v {
        LichessVariant::Antichess => UciVariant::Antichess,
        LichessVariant::Atomic => UciVariant::Atomic,
        LichessVariant::Chess960 => UciVariant::Chess,
        LichessVariant::FromPosition => UciVariant::Chess,
        LichessVariant::Standard => UciVariant::Chess,
        LichessVariant::Crazyhouse => UciVariant::Crazyhouse,
        LichessVariant::Horde => UciVariant::Horde,
        LichessVariant::KingOfTheHill => UciVariant::KingOfTheHill,
        LichessVariant::RacingKings => UciVariant::RacingKings,
        LichessVariant::ThreeCheck => UciVariant::ThreeCheck,
    }
}

pub open spec fn lichess_of_variant(v: UciVariant) -> LichessVariant {
    match v {
        UciVariant::Chess => LichessVariant::Standard,
        UciVariant::Antichess => LichessVariant::Antichess,
        UciVariant::Atomic => LichessVariant::Atomic,
        UciVariant::Crazyhouse => LichessVariant::Crazyhouse,
        UciVariant::Horde => LichessVariant::Horde,
        UciVariant::KingOfTheHill => LichessVariant::KingOfTheHill,
        UciVariant::RacingKings => LichessVariant::RacingKings,
        UciVariant::ThreeCheck => LichessVariant::ThreeCheck,
    }
}

impl From<LichessVariant> for UciVariant {
    fn from(v: LichessVariant) -> (r: UciVariant)
        ensures
            r == variant_of_lichess(v),
    {
        match v {
            LichessVariant::Antichess => UciVariant::Antichess,
            LichessVariant::Atomic => UciVariant::Atomic,
            LichessVariant::Chess960 | LichessVariant::FromPosition | LichessVariant::Standard => {
                UciVariant::Chess
            },
            LichessVariant::Crazyhouse => UciVariant::Crazyhouse,
            LichessVariant::Horde => UciVariant::Horde,
            LichessVariant::KingOfTheHill => UciVariant::KingOfTheHill,
            LichessVariant::RacingKings => UciVariant::RacingKings,
            LichessVariant::ThreeCheck => UciVariant::ThreeCheck,
        }
    }
}

impl vstd::std_specs::convert::FromSpecImpl<LichessVariant> for UciVariant {
    open spec fn obeys_from_spec() -> bool {
        true
    }

    open spec fn from_spec(v: LichessVariant) -> UciVariant {
        variant_of_lichess(v)
    }
}

impl From<UciVariant> for LichessVariant {
    fn from(v: UciVariant) -> (r: LichessVariant)
        ensures
            r == lichess_of_variant(v),
    {
        match v {
            UciVariant::Chess => LichessVariant::Standard,
            UciVariant::Antichess => LichessVariant::Antichess,
            UciVariant::Atomic => LichessVariant::Atomic,
            UciVariant::Crazyhouse => LichessVariant::Crazyhouse,
            UciVariant::Horde => LichessVariant::Horde,
            UciVariant::KingOfTheHill => LichessVariant::KingOfTheHill,
            UciVariant::RacingKings => LichessVariant::RacingKings,
            UciVariant::ThreeCheck => LichessVariant::ThreeCheck,
        }
    }
}

impl vstd::std_specs::convert::FromSpecImpl<UciVariant> for LichessVariant {
    open spec fn obeys_from_spec() -> bool {
        true
    }

    open spec fn from_spec(v: UciVariant) -> LichessVariant {
        lichess_of_variant(v)
    }
}

} // verus!
