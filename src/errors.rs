use vstd::prelude::*;

verus! {

/// The conditions under which an operation on a game is refused. A refused
/// operation leaves the game exactly as it was.
#[derive(Clone, Copy, Debug, PartialEq, Eq, Structural)]
pub enum GameErrors {
    InvalidEntryStake,
    InvalidMint,
    InsufficientFunds,
    InvalidWaitTimeRange,
    InvalidNoPlayers,
    PlayersAlreadyComplete,
    NotYourTurn,
    CannotPlayCard,
    NoCallCard,
    NoDrawPile,
    PlayerNotFound,
    GameNotStarted,
    GameAlreadyStarted,
    GameEnded,
    GameNotEnded,
    YouAreNotWinner,
    CannotPenalizeYourself,
    AlreadyClaimed,
    InvalidAuthority,
    InvalidGameState,
}

impl GameErrors {
    /// A short human-readable description of the condition.
    pub fn message(&self) -> (r: &'static str) {
        match self {
            GameErrors::InvalidEntryStake => "Invalid entry stake",
            GameErrors::InvalidMint => "Mint is not yet supported",
            GameErrors::InsufficientFunds => "Insufficient Funds",
            GameErrors::InvalidWaitTimeRange => "Invalid Wait Time Range",
            GameErrors::InvalidNoPlayers => "Players must be between 2 - 5",
            GameErrors::PlayersAlreadyComplete => "Players are already complete",
            GameErrors::NotYourTurn => "Not your turn",
            GameErrors::CannotPlayCard => "Cannot play this card",
            GameErrors::NoCallCard => "No call card to validate",
            GameErrors::NoDrawPile => "No draw pile",
            GameErrors::PlayerNotFound => "Player not found",
            GameErrors::GameNotStarted => "Game not started",
            GameErrors::GameAlreadyStarted => "Game already started",
            GameErrors::GameEnded => "Game ended",
            GameErrors::GameNotEnded => "Game not ended",
            GameErrors::YouAreNotWinner => "You are not the winner",
            GameErrors::CannotPenalizeYourself => "Cannot penalize yourself",
            GameErrors::AlreadyClaimed => "Already claimed",
            GameErrors::InvalidAuthority => "Invalid authority",
            GameErrors::InvalidGameState => "Game state is inconsistent",
        }
    }
}

} // verus!
