use vstd::prelude::*;

verus! {

/// The tables of the voting module, used to say where an error arose.
#[derive(Clone, Copy, PartialEq, Eq, Structural, Debug)]
pub enum Table {
    Country,
    ParticipatingCountry,
    RotwCountry,
    User,
    Viewer,
    Juror,
    Round,
    Participation,
    ActiveRound,
    Ranking,
    TeleVote,
    JurorVote,
}

/// Why a reducer, a hook or a table operation refused.
///
/// The first five variants are the failures of the table operations; `ArithmeticOverflow`
/// stands for an integer operation that would leave its type, which aborts the transaction;
/// the others are the refusals that the voting rules themselves state.
#[derive(Clone, Copy, PartialEq, Eq, Structural, Debug)]
pub enum VoteError {
    /// No row has the looked-up value.
    NotFound(Table),
    /// A row with the same unique value exists already, or a unique lookup matched several rows.
    UniqueViolation(Table),
    /// A column that references another table names a row that does not exist.
    ReferenceIntegrityViolation(Table),
    /// The sequence that numbers the rows of the table is exhausted.
    AutoIncOverflow(Table),
    /// A score, a rank or a count left the range of its integer type.
    ArithmeticOverflow,
    /// More televotes than a viewer may cast in one round.
    TooManyVotes,
    /// A vote for the voter's own country.
    OwnCountryVote,
    /// A vote for a country that does not take part in the round.
    NotParticipating,
    /// A ballot for a round whose voting is closed.
    VotingClosed,
    /// A juror ranking outside the grand final.
    JurorsOnlyInGrandFinal,
    /// A juror ranking that does not rank every performer but the juror's own country.
    IncompleteRanking,
}

} // verus!
