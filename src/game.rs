use vstd::prelude::*;
use crate::card::{Card, STAR_SUIT, DECK_SIZE};
use crate::shuffle::{shuffled, shuffle_cards, seed_from_randomness, le_value, vrf_sample};
use crate::errors::GameErrors;

verus! {

/// A stable participant handle (a 32-byte public key).
pub type Identity = [u8; 32];

/// One participant of a game.
#[derive(Clone, Debug, PartialEq, Eq)]
pub struct Player {
    pub owner: Identity,
    pub username: String,
    /// `None` until the deal; afterwards the cards held, in order of arrival.
    pub hand: Option<Vec<Card>>,
    /// The seat (1 to N), assigned at the deal.
    pub player_index: Option<u8>,
    /// The score, cached when the game ends.
    pub card_count: Option<u8>,
    pub claimed: bool,
}

#[verifier::ext_equal]
pub struct PlayerView {
    pub owner: Identity,
    pub username: Seq<char>,
    pub hand: Option<Seq<Card>>,
    pub player_index: Option<u8>,
    pub card_count: Option<u8>,
    pub claimed: bool,
}

impl View for Player {
    type V = PlayerView;

    open spec fn view(&self) -> PlayerView {
        PlayerView {
            owner: self.owner,
            username: self.username@,
            hand: match self.hand {
                Some(h) => Some(h@),
                None => None,
            },
            player_index: self.player_index,
            card_count: self.card_count,
            claimed: self.claimed,
        }
    }
}

/// The state of one game: roster, cards, turn pointer, phase and outcome.
#[derive(Clone, Debug, PartialEq, Eq)]
pub struct Game {
    pub owner: Identity,
    pub entry_stake: u64,
    pub stake_mint: Identity,
    pub seed: u64,
    pub no_players: u8,
    /// The seat whose turn it is (1 to N) while the game runs; 0 once it ended.
    pub player_turn: u8,
    pub players: Vec<Player>,
    /// Once `ended`: the winner, or `None` for a tie.
    pub winner: Option<Identity>,
    pub call_card: Option<Card>,
    /// A stack: the last card is the top.
    pub draw_pile: Option<Vec<Card>>,
    pub wait_time: i64,
    pub random_seed: Option<u64>,
    pub delegated: bool,
    pub started: bool,
    pub ended: bool,
    pub created_at: i64,
    pub started_at: Option<i64>,
    pub ended_at: Option<i64>,
    pub last_move_time: Option<i64>,
}

#[verifier::ext_equal]
pub struct GameView {
    pub owner: Identity,
    pub entry_stake: u64,
    pub stake_mint: Identity,
    pub seed: u64,
    pub no_players: u8,
    pub player_turn: u8,
    pub players: Seq<PlayerView>,
    pub winner: Option<Identity>,
    pub call_card: Option<Card>,
    pub draw_pile: Option<Seq<Card>>,
    pub wait_time: i64,
    pub random_seed: Option<u64>,
    pub delegated: bool,
    pub started: bool,
    pub ended: bool,
    pub created_at: i64,
    pub started_at: Option<i64>,
    pub ended_at: Option<i64>,
    pub last_move_time: Option<i64>,
}

pub open spec fn player_views(ps: Seq<Player>) -> Seq<PlayerView> {
    ps.map_values(|p: Player| p@)
}

proof fn lemma_views(ps: Seq<Player>)
    ensures
        player_views(ps).len() == ps.len(),
        forall|i: int| 0 <= i < ps.len() ==> #[trigger] player_views(ps)[i] == ps[i]@,
{
}

proof fn lemma_scored(v: GameView)
    ensures
        scored(v).players.len() == v.players.len(),
        forall|i: int|
            0 <= i < v.players.len() ==> #[trigger] scored(v).players[i] == (PlayerView {
                card_count: Some(score_of(v.players[i])),
                ..v.players[i]
            }),
{
}

impl View for Game {
    type V = GameView;

    open spec fn view(&self) -> GameView {
        GameView {
            owner: self.owner,
            entry_stake: self.entry_stake,
            stake_mint: self.stake_mint,
            seed: self.seed,
            no_players: self.no_players,
            player_turn: self.player_turn,
            players: player_views(self.players@),
            winner: self.winner,
            call_card: self.call_card,
            draw_pile: match self.draw_pile {
                Some(p) => Some(p@),
                None => None,
            },
            wait_time: self.wait_time,
            random_seed: self.random_seed,
            delegated: self.delegated,
            started: self.started,
            ended: self.ended,
            created_at: self.created_at,
            started_at: self.started_at,
            ended_at: self.ended_at,
            last_move_time: self.last_move_time,
        }
    }
}

// ---------------------------------------------------------------------------
// The model: cards held, moves of cards, scores and outcomes.

/// The cards of a player, or none before the deal.
pub open spec fn cards_of(p: PlayerView) -> Seq<Card> {
    match p.hand {
        Some(h) => h,
        None => Seq::empty(),
    }
}

pub open spec fn hand_of(v: GameView, i: int) -> Seq<Card> {
    cards_of(v.players[i])
}

pub open spec fn pile_of(v: GameView) -> Seq<Card> {
    match v.draw_pile {
        Some(p) => p,
        None => Seq::empty(),
    }
}

/// Position in `players` of the seat whose turn it is.
pub open spec fn cur(v: GameView) -> int {
    v.player_turn - 1
}

pub open spec fn with_hand(v: GameView, i: int, h: Seq<Card>) -> GameView {
    GameView { players: v.players.update(i, PlayerView { hand: Some(h), ..v.players[i] }), ..v }
}

/// The top card of the pile moves to the hand of the player at position `i`.
pub open spec fn give_top(v: GameView, i: int) -> GameView {
    GameView {
        draw_pile: Some(pile_of(v).drop_last()),
        ..with_hand(v, i, hand_of(v, i).push(pile_of(v).last()))
    }
}

/// Up to `k` cards move from the top of the pile to the player at position `i`,
/// one at a time, fewer if the pile runs out.
pub open spec fn draw_up_to(v: GameView, i: int, k: nat) -> GameView
    decreases k,
{
    if k == 0 || pile_of(v).len() == 0 {
        v
    } else {
        draw_up_to(give_top(v, i), i, (k - 1) as nat)
    }
}

/// The seat `step` seats after `turn`, among `n` seats.
pub open spec fn next_seat(turn: u8, step: u8, n: u8) -> u8 {
    ((turn - 1 + step) % (n as int) + 1) as u8
}

pub open spec fn advanced(v: GameView, step: u8) -> GameView {
    GameView { player_turn: next_seat(v.player_turn, step, v.no_players), ..v }
}

pub open spec fn sat_u8(x: int) -> u8 {
    if x > 255 {
        255
    } else {
        x as u8
    }
}

/// What one card counts at scoring: its rank, doubled in the star suit.
pub open spec fn card_points(c: Card) -> u8 {
    if c.id == STAR_SUIT {
        sat_u8(c.card_number * 2)
    } else {
        c.card_number
    }
}

/// The score of a hand: the saturating sum of its cards' points.
pub open spec fn hand_score(h: Seq<Card>) -> u8
    decreases h.len(),
{
    if h.len() == 0 {
        0
    } else {
        sat_u8(hand_score(h.drop_last()) + card_points(h.last()))
    }
}

pub open spec fn score_of(p: PlayerView) -> u8 {
    hand_score(cards_of(p))
}

/// Every player's score cached on its record.
pub open spec fn scored(v: GameView) -> GameView {
    GameView {
        players: v.players.map_values(
            |p: PlayerView| PlayerView { card_count: Some(score_of(p)), ..p },
        ),
        ..v
    }
}

/// The player at position `i` scores strictly less than every other player.
pub open spec fn sole_lowest(ps: Seq<PlayerView>, i: int) -> bool {
    &&& 0 <= i < ps.len()
    &&& forall|j: int| 0 <= j < ps.len() && j != i ==> score_of(ps[i]) < score_of(ps[j])
}

/// The winner when the market is finished: the one player with the lowest
/// score, or nobody when two or more share it.
pub open spec fn market_winner(ps: Seq<PlayerView>) -> Option<Identity> {
    if exists|i: int| sole_lowest(ps, i) {
        Some(ps[choose|i: int| sole_lowest(ps, i)].owner)
    } else {
        None
    }
}

/// The game ends with outcome `winner` at time `now`, every score cached.
pub open spec fn concluded(v: GameView, winner: Option<Identity>, now: i64) -> GameView {
    GameView { winner, ended: true, ended_at: Some(now), player_turn: 0, ..scored(v) }
}

/// The market-finished ending; no change once the game has ended.
pub open spec fn market_finished(v: GameView, now: i64) -> GameView {
    if v.ended {
        v
    } else {
        concluded(v, market_winner(v.players), now)
    }
}

pub open spec fn current_hand_empty(v: GameView) -> bool {
    match v.players[cur(v)].hand {
        Some(h) => h.len() == 0,
        None => false,
    }
}

pub open spec fn pile_empty(v: GameView) -> bool {
    match v.draw_pile {
        Some(p) => p.len() == 0,
        None => false,
    }
}

/// The termination check: the current player wins on an empty hand; else an
/// empty pile finishes the market; else nothing changes, as it does not once
/// the game has ended.
pub open spec fn settled(v: GameView, now: i64) -> GameView {
    if v.ended {
        v
    } else if current_hand_empty(v) {
        concluded(v, Some(v.players[cur(v)].owner), now)
    } else if pile_empty(v) {
        concluded(v, market_winner(v.players), now)
    } else {
        v
    }
}

/// The termination check, then, if the game goes on, the turn passes `step` seats.
pub open spec fn settled_then_advanced(v: GameView, now: i64, step: u8) -> GameView {
    let s = settled(v, now);
    if s.ended {
        s
    } else {
        advanced(s, step)
    }
}

/// General market: the `j` seats after the current one each take a card
/// while the pile lasts.
pub open spec fn market_round(v: GameView, j: nat) -> GameView
    decreases j,
{
    if j == 0 {
        v
    } else {
        let w = market_round(v, (j - 1) as nat);
        if pile_of(w).len() == 0 {
            w
        } else {
            give_top(w, (cur(v) + j) % (v.no_players as int))
        }
    }
}

pub const HOLD_ON: u8 = 1;
pub const PICK_TWO: u8 = 2;
pub const PICK_THREE: u8 = 5;
pub const SUSPENSION: u8 = 8;
pub const GENERAL_MARKET: u8 = 14;
pub const NEED: u8 = 20;

/// The effect of a card of rank `rank` just played, termination check included.
pub open spec fn effect_of(v: GameView, rank: u8, now: i64) -> GameView {
    if rank == HOLD_ON || rank == NEED {
        settled(v, now)
    } else if rank == PICK_TWO {
        settled_then_advanced(draw_up_to(v, (v.player_turn as int) % (v.no_players as int), 2), now, 2)
    } else if rank == PICK_THREE {
        settled_then_advanced(draw_up_to(v, (v.player_turn as int) % (v.no_players as int), 3), now, 2)
    } else if rank == SUSPENSION {
        settled_then_advanced(v, now, 2)
    } else if rank == GENERAL_MARKET {
        settled(market_round(v, (v.no_players - 1) as nat), now)
    } else {
        settled_then_advanced(v, now, 1)
    }
}

/// Position of the first occurrence of `c` in `h`.
pub open spec fn first_index(h: Seq<Card>, c: Card) -> int {
    choose|k: int| 0 <= k < h.len() && h[k] == c && forall|m: int| 0 <= m < k ==> h[m] != c
}

/// `h` without the first occurrence of `c`.
pub open spec fn remove_one(h: Seq<Card>, c: Card) -> Seq<Card> {
    h.remove(first_index(h, c))
}

/// A card may follow the call card when it shares its suit or its rank.
pub open spec fn matches_call(card: Card, call: Card) -> bool {
    card.id == call.id || card.card_number == call.card_number
}

/// The outcome of a legal play of `card` by the current player at time `now`.
pub open spec fn played(v: GameView, card: Card, now: i64) -> GameView {
    let i = cur(v);
    let v1 = GameView {
        call_card: Some(card),
        last_move_time: Some(now),
        ..with_hand(v, i, remove_one(hand_of(v, i), card))
    };
    effect_of(v1, card.card_number, now)
}

/// The outcome of the current player drawing from the pile at time `now`.
pub open spec fn drawn(v: GameView, now: i64) -> GameView {
    let v1 = GameView { last_move_time: Some(now), ..v };
    settled_then_advanced(give_top(v1, cur(v)), now, 1)
}

/// Seconds since the last move (or the start) at time `now`.
pub open spec fn elapsed(v: GameView, now: i64) -> int {
    let last = match v.last_move_time {
        Some(t) => t,
        None => match v.started_at {
            Some(t) => t,
            None => now,
        },
    };
    now - last
}

/// The outcome of a penalty request at time `now`: nothing while the current
/// player is within the wait window; else the current player draws and loses
/// the turn, or the market finishes if the pile is empty.
pub open spec fn penalized(v: GameView, now: i64) -> GameView {
    if elapsed(v, now) <= v.wait_time {
        v
    } else {
        let v1 = GameView { last_move_time: Some(now), ..v };
        if pile_of(v1).len() == 0 {
            market_finished(v1, now)
        } else {
            settled_then_advanced(give_top(v1, cur(v)), now, 1)
        }
    }
}

// ---------------------------------------------------------------------------
// When an operation is refused.

/// Some player of the roster is `who`.
pub open spec fn in_roster(v: GameView, who: Identity) -> bool {
    exists|i: int| 0 <= i < v.players.len() && v.players[i].owner == who
}

/// Position of the first player of the roster that is `who`.
pub open spec fn roster_position(v: GameView, who: Identity) -> int {
    choose|i: int|
        0 <= i < v.players.len() && v.players[i].owner == who && forall|m: int|
            0 <= m < i ==> v.players[m].owner != who
}

/// The roster is complete and dealt: seat `i + 1` at position `i`, every hand
/// dealt, and the turn on a seat.
pub open spec fn roster_dealt(v: GameView) -> bool {
    &&& 2 <= v.no_players <= 5
    &&& v.players.len() == v.no_players
    &&& 1 <= v.player_turn <= v.no_players
    &&& forall|i: int|
        0 <= i < v.players.len() ==> {
            &&& (#[trigger] v.players[i]).hand is Some
            &&& v.players[i].player_index == Some((i + 1) as u8)
        }
}

/// Why a running game cannot take a move: a part of its state is missing.
pub open spec fn shape_error(v: GameView) -> Option<GameErrors> {
    if v.call_card is None {
        Some(GameErrors::NoCallCard)
    } else if v.draw_pile is None {
        Some(GameErrors::NoDrawPile)
    } else if !roster_dealt(v) {
        Some(GameErrors::InvalidGameState)
    } else {
        None
    }
}

/// A game that is under way and whole: the state every move starts from.
pub open spec fn running(v: GameView) -> bool {
    v.started && !v.ended && shape_error(v) is None
}

/// Why `who` may not make a move (play or draw) now, if so.
pub open spec fn move_error(v: GameView, who: Identity) -> Option<GameErrors> {
    if !in_roster(v, who) {
        Some(GameErrors::PlayerNotFound)
    } else if v.players[roster_position(v, who)].player_index != Some(v.player_turn) {
        Some(GameErrors::NotYourTurn)
    } else if !v.started {
        Some(GameErrors::GameNotStarted)
    } else if v.ended {
        Some(GameErrors::GameEnded)
    } else {
        shape_error(v)
    }
}

/// Why `who` may not play `card` now, if so.
pub open spec fn play_error(v: GameView, who: Identity, card: Card) -> Option<GameErrors> {
    if move_error(v, who) is Some {
        move_error(v, who)
    } else if !hand_of(v, cur(v)).contains(card) || !matches_call(card, v.call_card->Some_0) {
        Some(GameErrors::CannotPlayCard)
    } else {
        None
    }
}

/// Why `who` may not draw now, if so.
pub open spec fn draw_error(v: GameView, who: Identity) -> Option<GameErrors> {
    if move_error(v, who) is Some {
        move_error(v, who)
    } else if pile_of(v).len() == 0 {
        Some(GameErrors::NoDrawPile)
    } else {
        None
    }
}

/// Why `who` may not ask for a penalty now, if so.
pub open spec fn penalty_error(v: GameView, who: Identity) -> Option<GameErrors> {
    if !in_roster(v, who) {
        Some(GameErrors::PlayerNotFound)
    } else if v.players[roster_position(v, who)].player_index == Some(v.player_turn) {
        Some(GameErrors::CannotPenalizeYourself)
    } else if !v.started {
        Some(GameErrors::GameNotStarted)
    } else if v.ended {
        Some(GameErrors::GameEnded)
    } else {
        shape_error(v)
    }
}

// ---------------------------------------------------------------------------
// Creation, roster and deal.

pub const MIN_WAIT_TIME: i64 = 30;
pub const MAX_WAIT_TIME: i64 = 120;
pub const MIN_NO_PLAYERS: u8 = 2;
pub const MAX_NO_PLAYERS: u8 = 5;
pub const CARDS_PER_PLAYER: usize = 5;

/// Why a game cannot be created with these settings, if so.
pub open spec fn create_error(no_players: u8, wait_time: i64) -> Option<GameErrors> {
    if no_players < MIN_NO_PLAYERS || no_players > MAX_NO_PLAYERS {
        Some(GameErrors::InvalidNoPlayers)
    } else if wait_time < MIN_WAIT_TIME || wait_time > MAX_WAIT_TIME {
        Some(GameErrors::InvalidWaitTimeRange)
    } else {
        None
    }
}

/// A new game: empty roster, not started, the turn on the first seat.
pub open spec fn fresh_game(
    owner: Identity,
    seed: u64,
    entry_stake: u64,
    no_players: u8,
    wait_time: i64,
    stake_mint: Identity,
    now: i64,
) -> GameView {
    GameView {
        owner,
        entry_stake,
        stake_mint,
        seed,
        no_players,
        player_turn: 1,
        players: Seq::empty(),
        winner: None,
        call_card: None,
        draw_pile: None,
        wait_time,
        random_seed: None,
        delegated: false,
        started: false,
        ended: false,
        created_at: now,
        started_at: None,
        ended_at: None,
        last_move_time: None,
    }
}

/// Why `who` cannot join, if so.
pub open spec fn join_error(v: GameView, balance: u64, mint_allowed: bool) -> Option<GameErrors> {
    if v.started || v.players.len() >= v.no_players {
        Some(GameErrors::PlayersAlreadyComplete)
    } else if balance < v.entry_stake {
        Some(GameErrors::InsufficientFunds)
    } else if !mint_allowed {
        Some(GameErrors::InvalidMint)
    } else {
        None
    }
}

/// A newcomer's record: no hand, no seat, no score yet.
pub open spec fn newcomer(who: Identity, username: Seq<char>) -> PlayerView {
    PlayerView {
        owner: who,
        username,
        hand: None,
        player_index: None,
        card_count: None,
        claimed: false,
    }
}

/// Why the cards cannot be dealt, if so.
pub open spec fn deal_error(v: GameView) -> Option<GameErrors> {
    if v.started {
        Some(GameErrors::GameAlreadyStarted)
    } else if v.ended {
        Some(GameErrors::GameEnded)
    } else if !(2 <= v.no_players <= 5 && v.players.len() == v.no_players) {
        Some(GameErrors::InvalidGameState)
    } else {
        None
    }
}

/// The deal from `deck` at time `now`: seat `i + 1` gets the `i`-th block of
/// five cards, the next card is the call card, the rest is the pile in order;
/// the game starts on the first seat.
pub open spec fn dealt(v: GameView, deck: Seq<Card>, random_seed: u64, now: i64) -> GameView {
    let n = v.no_players as int;
    GameView {
        players: Seq::new(
            v.players.len(),
            |i: int|
                PlayerView {
                    hand: Some(deck.subrange(5 * i, 5 * i + 5)),
                    player_index: Some((i + 1) as u8),
                    ..v.players[i]
                },
        ),
        call_card: Some(deck[5 * n]),
        draw_pile: Some(deck.subrange(5 * n + 1, deck.len() as int)),
        random_seed: Some(random_seed),
        started: true,
        started_at: Some(now),
        player_turn: 1,
        last_move_time: Some(now),
        ..v
    }
}

/// The 64-bit seed drawn from a 32-byte random value.
pub open spec fn vrf_seed(randomness: Seq<u8>) -> u64 {
    le_value(vrf_sample(randomness)) as u64
}

/// Why `who` cannot leave, if so.
pub open spec fn exit_error(v: GameView, who: Identity, vault_amount: u64) -> Option<GameErrors> {
    if !in_roster(v, who) {
        Some(GameErrors::PlayerNotFound)
    } else if vault_amount < v.entry_stake {
        Some(GameErrors::InsufficientFunds)
    } else {
        None
    }
}

/// `who` leaves the roster; when `who` owns the game, it ends without a winner.
pub open spec fn exited(v: GameView, who: Identity) -> GameView {
    let w = if v.owner == who {
        GameView { ended: true, winner: None, player_turn: 0, ..v }
    } else {
        v
    };
    GameView { players: w.players.remove(roster_position(v, who)), ..w }
}

/// What a claim pays out: to the claimant, and to the platform.
#[derive(Clone, Copy, Debug, PartialEq, Eq, Structural)]
pub struct Payout {
    pub amount: u64,
    pub fee: u64,
}

/// Why `who` cannot claim, if so.
pub open spec fn claim_error(v: GameView, who: Identity, fee_wallet_ok: bool) -> Option<GameErrors> {
    if !v.ended {
        Some(GameErrors::GameNotEnded)
    } else if !in_roster(v, who) {
        Some(GameErrors::PlayerNotFound)
    } else if v.players[roster_position(v, who)].claimed {
        Some(GameErrors::AlreadyClaimed)
    } else if !fee_wallet_ok {
        Some(GameErrors::InvalidAuthority)
    } else if v.winner is Some && v.winner != Some(who) {
        Some(GameErrors::YouAreNotWinner)
    } else {
        None
    }
}

/// The payout of a valid claim: the winner takes the vault less the platform's
/// share (in hundredths of a percent); after a tie, each player takes back
/// the entry stake.
pub open spec fn claim_payout(v: GameView, vault_amount: u64, platform_fee: u16) -> Payout {
    if v.winner is Some {
        let fee = (vault_amount * platform_fee / 10_000) as u64;
        Payout { amount: (vault_amount - fee) as u64, fee }
    } else {
        Payout { amount: v.entry_stake, fee: 0 }
    }
}

/// The claimant's record marked as claimed.
pub open spec fn claimed(v: GameView, who: Identity) -> GameView {
    let i = roster_position(v, who);
    GameView { players: v.players.update(i, PlayerView { claimed: true, ..v.players[i] }), ..v }
}

// ---------------------------------------------------------------------------
// Executable operations.

/// Whether two identities are the same.
pub fn same_identity(a: &Identity, b: &Identity) -> (r: bool)
    ensures
        r == (*a == *b),
{
    broadcast use vstd::array::group_array_axioms;

    let mut k: usize = 0;
    while k < 32
        invariant
            k <= 32,
            forall|m: int| 0 <= m < k ==> a[m] == b[m],
        decreases 32 - k,
    {
        if a[k] != b[k] {
            return false;
        }
        k = k + 1;
    }
    assert(*a =~= *b);
    true
}

/// Points of one card at scoring.
pub fn card_points_of(c: &Card) -> (r: u8)
    ensures
        r == card_points(*c),
{
    if c.id == STAR_SUIT {
        c.card_number.saturating_add(c.card_number)
    } else {
        c.card_number
    }
}

/// The score of a hand.
pub fn score_hand(h: &Vec<Card>) -> (r: u8)
    ensures
        r == hand_score(h@),
{
    let mut total: u8 = 0;
    let mut k: usize = 0;
    while k < h.len()
        invariant
            k <= h@.len(),
            total == hand_score(h@.subrange(0, k as int)),
        decreases h@.len() - k,
    {
        let ghost pre = h@.subrange(0, k as int);
        total = total.saturating_add(card_points_of(&h[k]));
        k = k + 1;
        assert(h@.subrange(0, k as int).drop_last() =~= pre);
    }
    assert(h@.subrange(0, k as int) =~= h@);
    total
}

impl Game {
    /// Position in the roster of the first player that is `who`.
    pub fn find_player(&self, who: &Identity) -> (r: Option<usize>)
        ensures
            match r {
                Some(i) => in_roster(self@, *who) && i == roster_position(self@, *who) && i
                    < self.players@.len(),
                None => !in_roster(self@, *who),
            },
    {
        let mut i: usize = 0;
        while i < self.players.len()
            invariant
                i <= self.players@.len(),
                forall|m: int| 0 <= m < i ==> self@.players[m].owner != *who,
            decreases self.players@.len() - i,
        {
            if same_identity(&self.players[i].owner, who) {
                proof {
                    let v = self@;
                    assert(v.players[i as int].owner == *who);
                    let j = roster_position(v, *who);
                    assert(0 <= j < v.players.len() && v.players[j].owner == *who && forall|m: int|
                        0 <= m < j ==> v.players[m].owner != *who);
                    if j < i {
                    } else if j > i {
                    }
                }
                return Some(i);
            }
            i = i + 1;
        }
        None
    }

    /// The top card of the pile goes to the hand of the player at position `i`.
    fn give_top_card(&mut self, i: usize)
        requires
            i < old(self).players@.len(),
            old(self)@.players[i as int].hand is Some,
            old(self)@.draw_pile is Some,
            pile_of(old(self)@).len() > 0,
        ensures
            final(self)@ == give_top(old(self)@, i as int),
    {
        let ghost v0 = self@;
        let card = match &mut self.draw_pile {
            Some(pile) => match pile.pop() {
                Some(c) => c,
                None => {
                    return ;
                },
            },
            None => {
                return ;
            },
        };
        match &mut self.players[i].hand {
            Some(h) => h.push(card),
            None => {},
        }
        assert(self@.players =~~= give_top(v0, i as int).players);
        assert(self@ =~~= give_top(v0, i as int));
    }

    /// The turn passes `step` seats on.
    pub fn next_turn(&mut self, step: u8)
        requires
            old(self).player_turn >= 1,
            old(self).no_players >= 1,
            old(self).player_turn - 1 + step <= 255,
        ensures
            final(self)@ == advanced(old(self)@, step),
    {
        self.player_turn = ((self.player_turn - 1 + step) % self.no_players) + 1;
    }

    /// Caches every player's score on its record.
    pub fn handle_count_cards(&mut self)
        ensures
            final(self)@ == scored(old(self)@),
    {
        let ghost v0 = self@;
        let mut i: usize = 0;
        proof {
            lemma_views(self.players@);
        }
        while i < self.players.len()
            invariant
                i <= self.players@.len(),
                self.players@.len() == v0.players.len(),
                self@ == (GameView { players: self@.players, ..v0 }),
                forall|m: int|
                    0 <= m < self.players@.len() ==> #[trigger] self@.players[m] == if m < i {
                        PlayerView { card_count: Some(score_of(v0.players[m])), ..v0.players[m] }
                    } else {
                        v0.players[m]
                    },
            decreases self.players@.len() - i,
        {
            proof {
                lemma_views(self.players@);
                assert(self@.players[i as int] == v0.players[i as int]);
            }
            let total = match &self.players[i].hand {
                Some(h) => score_hand(h),
                None => 0,
            };
            assert(total == score_of(v0.players[i as int]));
            let ghost pre = self.players@;
            let ghost pre_view = self@.players;
            proof {
                lemma_views(pre);
            }
            self.players[i].card_count = Some(total);
            proof {
                lemma_views(self.players@);
                assert(self.players@ == pre.update(i as int, self.players@[i as int]));
                assert(pre[i as int]@ == v0.players[i as int]);
                assert(self@.players[i as int] == PlayerView {
                    card_count: Some(score_of(v0.players[i as int])),
                    ..v0.players[i as int]
                });
                assert(self@.players =~= pre_view.update(i as int, self@.players[i as int]));
            }
            i = i + 1;
        }
        assert(self@.players =~~= scored(v0).players);
        assert(self@ =~~= scored(v0));
    }

    /// The hand-empty ending: the current player wins.
    pub fn handle_checkup(&mut self, now: i64)
        requires
            old(self).ended || 1 <= old(self).player_turn <= old(self).players@.len(),
        ensures
            final(self)@ == if old(self).ended {
                old(self)@
            } else {
                concluded(old(self)@, Some(old(self)@.players[cur(old(self)@)].owner), now)
            },
    {
        if self.ended {
            return ;
        }
        let ghost v0 = self@;
        proof {
            lemma_views(self.players@);
        }
        self.handle_count_cards();
        proof {
            lemma_views(self.players@);
            lemma_scored(v0);
        }
        assert(self@.players[cur(v0)] == scored(v0).players[cur(v0)]);
        assert(self.players@[cur(v0)]@ == self@.players[cur(v0)]);
        self.winner = Some(self.players[(self.player_turn - 1) as usize].owner);
        self.ended = true;
        self.ended_at = Some(now);
        self.player_turn = 0;
        assert(self@ =~~= concluded(v0, Some(v0.players[cur(v0)].owner), now));
    }

    /// The market-finished ending: the sole lowest score wins; a shared lowest
    /// score is a tie.
    pub fn handle_market_finish(&mut self, now: i64)
        requires
            old(self).ended || old(self).players@.len() >= 1,
        ensures
            final(self)@ == market_finished(old(self)@, now),
    {
        if self.ended {
            return ;
        }
        let ghost v0 = self@;
        proof {
            lemma_views(self.players@);
        }
        self.handle_count_cards();
        let ghost ps = v0.players;
        proof {
            lemma_views(self.players@);
            lemma_scored(v0);
            assert(self@.players.len() == ps.len());
        }
        let n = self.players.len();
        // the first position with the lowest score
        let mut low: usize = 0;
        let mut low_score: u8 = match self.players[0].card_count {
            Some(c) => c,
            None => 0,
        };
        assert(self@.players[0] == scored(v0).players[0]);
        let mut i: usize = 1;
        while i < n
            invariant
                n == ps.len(),
                ps == v0.players,
                n >= 1,
                1 <= i <= n,
                low < i,
                self@ == scored(v0),
                self.players@.len() == n,
                forall|m: int| 0 <= m < n ==> #[trigger] player_views(self.players@)[m] == self.players@[m]@,
                low_score == score_of(ps[low as int]),
                forall|m: int| 0 <= m < i ==> score_of(ps[low as int]) <= score_of(#[trigger] ps[m]),
                forall|m: int| 0 <= m < low ==> score_of(ps[low as int]) < score_of(#[trigger] ps[m]),
            decreases n - i,
        {
            proof {
                lemma_scored(v0);
            }
            assert(self@.players[i as int] == scored(v0).players[i as int]);
            let c = match self.players[i].card_count {
                Some(c) => c,
                None => 0,
            };
            assert(self.players@[i as int]@ == self@.players[i as int]);
            assert(c == score_of(ps[i as int]));
            if c < low_score {
                low = i;
                low_score = c;
            }
            i = i + 1;
        }
        // whether another position shares it
        let mut tie = false;
        let mut j: usize = 0;
        while j < n
            invariant
                n == ps.len(),
                ps == v0.players,
                j <= n,
                low < n,
                self@ == scored(v0),
                self.players@.len() == n,
                forall|m: int| 0 <= m < n ==> #[trigger] player_views(self.players@)[m] == self.players@[m]@,
                low_score == score_of(ps[low as int]),
                tie <==> exists|m: int| 0 <= m < j && m != low && score_of(#[trigger] ps[m]) == low_score,
            decreases n - j,
        {
            proof {
                lemma_scored(v0);
            }
            assert(self@.players[j as int] == scored(v0).players[j as int]);
            let c = match self.players[j].card_count {
                Some(c) => c,
                None => 0,
            };
            assert(self.players@[j as int]@ == self@.players[j as int]);
            assert(c == score_of(ps[j as int]));
            if j != low && c == low_score {
                tie = true;
            }
            j = j + 1;
        }
        proof {
            if tie {
                assert forall|k: int| !sole_lowest(ps, k) by {
                    if sole_lowest(ps, k) {
                        let m = choose|m: int| 0 <= m < n && m != low && score_of(#[trigger] ps[m]) == low_score;
                        if k == low {
                            assert(score_of(ps[k]) < score_of(ps[m]));
                        } else {
                            assert(score_of(ps[k]) < score_of(ps[low as int]));
                        }
                    }
                }
                assert(market_winner(ps) == None::<Identity>);
            } else {
                assert(sole_lowest(ps, low as int));
                let k = choose|k: int| sole_lowest(ps, k);
                assert(k == low) by {
                    if k != low {
                        assert(score_of(ps[k]) < score_of(ps[low as int]));
                        assert(score_of(ps[low as int]) < score_of(ps[k]));
                    }
                }
            }
        }
        proof {
            lemma_scored(v0);
        }
        assert(self@.players[low as int] == scored(v0).players[low as int]);
        assert(self.players@[low as int]@ == self@.players[low as int]);
        if tie {
            self.winner = None;
        } else {
            self.winner = Some(self.players[low].owner);
        }
        self.ended = true;
        self.ended_at = Some(now);
        self.player_turn = 0;
        assert(self@ =~~= market_finished(v0, now));
    }

    /// The termination check after every move; no change once the game ended.
    pub fn check_winner(&mut self, now: i64)
        requires
            old(self).ended || 1 <= old(self).player_turn <= old(self).players@.len(),
        ensures
            final(self)@ == settled(old(self)@, now),
    {
        if self.ended {
            return ;
        }
        proof {
            lemma_views(self.players@);
        }
        let idx = (self.player_turn - 1) as usize;
        let hand_empty = match &self.players[idx].hand {
            Some(h) => h.len() == 0,
            None => false,
        };
        if hand_empty {
            self.handle_checkup(now);
            return ;
        }
        let pile_empty = match &self.draw_pile {
            Some(p) => p.len() == 0,
            None => false,
        };
        if pile_empty {
            self.handle_market_finish(now);
        }
    }

    /// Why the running game cannot take a move, if it is not whole.
    pub fn shape_check(&self) -> (r: Option<GameErrors>)
        ensures
            r == shape_error(self@),
    {
        if self.call_card.is_none() {
            return Some(GameErrors::NoCallCard);
        }
        if self.draw_pile.is_none() {
            return Some(GameErrors::NoDrawPile);
        }
        proof {
            lemma_views(self.players@);
        }
        if self.no_players < 2 || self.no_players > 5 || self.players.len() != self.no_players as usize
            || self.player_turn < 1 || self.player_turn > self.no_players {
            return Some(GameErrors::InvalidGameState);
        }
        let mut i: usize = 0;
        while i < self.players.len()
            invariant
                i <= self.players@.len(),
                self.players@.len() <= 5,
                self.call_card is Some,
                self.draw_pile is Some,
                2 <= self.no_players <= 5,
                self.players@.len() == self.no_players,
                1 <= self.player_turn <= self.no_players,
                forall|m: int| 0 <= m < self.players@.len() ==> #[trigger] self@.players[m] == self.players@[m]@,
                forall|m: int|
                    0 <= m < i ==> {
                        &&& (#[trigger] self@.players[m]).hand is Some
                        &&& self@.players[m].player_index == Some((m + 1) as u8)
                    },
            decreases self.players@.len() - i,
        {
            let p = &self.players[i];
            let seat_ok = match p.player_index {
                Some(s) => s as usize == i + 1,
                None => false,
            };
            if p.hand.is_none() || !seat_ok {
                assert(!roster_dealt(self@)) by {
                    assert(self@.players[i as int] == self.players@[i as int]@);
                }
                return Some(GameErrors::InvalidGameState);
            }
            i = i + 1;
        }
        None
    }

    /// Why `who` may not make a move now, if so.
    pub fn move_check(&self, who: &Identity) -> (r: Option<GameErrors>)
        ensures
            r == move_error(self@, *who),
    {
        proof {
            lemma_views(self.players@);
        }
        let i = match self.find_player(who) {
            Some(i) => i,
            None => {
                return Some(GameErrors::PlayerNotFound);
            },
        };
        assert(self@.players[i as int] == self.players@[i as int]@);
        let on_turn = match self.players[i].player_index {
            Some(s) => s == self.player_turn,
            None => false,
        };
        if !on_turn {
            return Some(GameErrors::NotYourTurn);
        }
        if !self.started {
            return Some(GameErrors::GameNotStarted);
        }
        if self.ended {
            return Some(GameErrors::GameEnded);
        }
        self.shape_check()
    }

    /// Why `who` may not ask for a penalty now, if so.
    pub fn penalty_check(&self, who: &Identity) -> (r: Option<GameErrors>)
        ensures
            r == penalty_error(self@, *who),
    {
        proof {
            lemma_views(self.players@);
        }
        let i = match self.find_player(who) {
            Some(i) => i,
            None => {
                return Some(GameErrors::PlayerNotFound);
            },
        };
        assert(self@.players[i as int] == self.players@[i as int]@);
        let on_turn = match self.players[i].player_index {
            Some(s) => s == self.player_turn,
            None => false,
        };
        if on_turn {
            return Some(GameErrors::CannotPenalizeYourself);
        }
        if !self.started {
            return Some(GameErrors::GameNotStarted);
        }
        if self.ended {
            return Some(GameErrors::GameEnded);
        }
        self.shape_check()
    }

    fn pile_is_empty(&self) -> (r: bool)
        ensures
            r == (pile_of(self@).len() == 0),
    {
        match &self.draw_pile {
            Some(p) => p.len() == 0,
            None => true,
        }
    }

    /// The termination check, then, if the game goes on, the turn passes.
    fn settle_and_pass(&mut self, now: i64, step: u8)
        requires
            running(old(self)@),
            1 <= step <= 2,
        ensures
            final(self)@ == settled_then_advanced(old(self)@, now, step),
    {
        proof {
            lemma_views(self.players@);
        }
        self.check_winner(now);
        if self.ended {
            return ;
        }
        self.next_turn(step);
    }

    /// Up to `k` cards go from the pile to the player at position `idx`.
    fn draw_cards(&mut self, idx: usize, k: u8)
        requires
            running(old(self)@),
            idx < old(self).players@.len(),
        ensures
            final(self)@ == draw_up_to(old(self)@, idx as int, k as nat),
            running(final(self)@),
    {
        let ghost v0 = self@;
        let mut r: u8 = k;
        while r > 0
            invariant
                running(self@),
                idx < self.players@.len(),
                draw_up_to(self@, idx as int, r as nat) == draw_up_to(v0, idx as int, k as nat),
            decreases r,
        {
            if !self.pile_is_empty() {
                proof {
                    lemma_views(self.players@);
                    lemma_give_top(self@, idx as int);
                }
                self.give_top_card(idx);
            }
            r = r - 1;
        }
    }

    /// Hold on: the player keeps the turn.
    pub fn handle_hold_on(&mut self, now: i64)
        requires
            running(old(self)@),
        ensures
            final(self)@ == settled(old(self)@, now),
    {
        proof {
            lemma_views(self.players@);
        }
        self.check_winner(now);
    }

    /// Need (the wildcard): the player keeps the turn.
    pub fn handle_need(&mut self, now: i64)
        requires
            running(old(self)@),
        ensures
            final(self)@ == settled(old(self)@, now),
    {
        proof {
            lemma_views(self.players@);
        }
        self.check_winner(now);
    }

    /// A card without effect: the turn passes to the next seat.
    pub fn handle_neutral_play(&mut self, now: i64)
        requires
            running(old(self)@),
        ensures
            final(self)@ == settled_then_advanced(old(self)@, now, 1),
    {
        self.settle_and_pass(now, 1);
    }

    /// Suspension: the next seat is skipped.
    pub fn handle_suspension(&mut self, now: i64)
        requires
            running(old(self)@),
        ensures
            final(self)@ == settled_then_advanced(old(self)@, now, 2),
    {
        self.settle_and_pass(now, 2);
    }

    /// Pick two: the next seat draws up to two cards and is skipped.
    pub fn handle_pick_2(&mut self, now: i64)
        requires
            running(old(self)@),
        ensures
            final(self)@ == settled_then_advanced(
                draw_up_to(old(self)@, (old(self).player_turn as int) % (old(self).no_players as int), 2),
                now,
                2,
            ),
    {
        let idx = (self.player_turn % self.no_players) as usize;
        self.draw_cards(idx, 2);
        self.settle_and_pass(now, 2);
    }

    /// Pick three: the next seat draws up to three cards and is skipped.
    pub fn handle_pick_3(&mut self, now: i64)
        requires
            running(old(self)@),
        ensures
            final(self)@ == settled_then_advanced(
                draw_up_to(old(self)@, (old(self).player_turn as int) % (old(self).no_players as int), 3),
                now,
                2,
            ),
    {
        let idx = (self.player_turn % self.no_players) as usize;
        self.draw_cards(idx, 3);
        self.settle_and_pass(now, 2);
    }

    /// General market: every other seat, in turn order, takes one card while
    /// the pile lasts; the turn stays.
    pub fn handle_general_market(&mut self, now: i64)
        requires
            running(old(self)@),
        ensures
            final(self)@ == settled(market_round(old(self)@, (old(self).no_players - 1) as nat), now),
    {
        let ghost v0 = self@;
        let n = self.no_players;
        let mut j: u8 = 1;
        while j < n
            invariant
                1 <= j <= n,
                n == v0.no_players,
                running(self@),
                self.no_players == n,
                self.player_turn == v0.player_turn,
                self@ == market_round(v0, (j - 1) as nat),
            decreases n - j,
        {
            if !self.pile_is_empty() {
                let idx = ((self.player_turn - 1 + j) % n) as usize;
                proof {
                    lemma_views(self.players@);
                    lemma_give_top(self@, idx as int);
                }
                self.give_top_card(idx);
            }
            j = j + 1;
        }
        proof {
            lemma_views(self.players@);
        }
        self.check_winner(now);
    }

    /// Resolves the effect of the call card just played.
    pub fn handle_call_card(&mut self, now: i64)
        requires
            running(old(self)@),
        ensures
            final(self)@ == effect_of(
                GameView { last_move_time: Some(now), ..old(self)@ },
                old(self).call_card->Some_0.card_number,
                now,
            ),
    {
        let rank = match self.call_card {
            Some(c) => c.card_number,
            None => 0,
        };
        self.last_move_time = Some(now);
        if rank == HOLD_ON {
            self.handle_hold_on(now)
        } else if rank == PICK_TWO {
            self.handle_pick_2(now)
        } else if rank == PICK_THREE {
            self.handle_pick_3(now)
        } else if rank == SUSPENSION {
            self.handle_suspension(now)
        } else if rank == GENERAL_MARKET {
            self.handle_general_market(now)
        } else if rank == NEED {
            self.handle_need(now)
        } else {
            self.handle_neutral_play(now)
        }
    }

    /// Checks that `card` may follow the call card and is in the current
    /// player's hand; if so, takes one copy of it from the hand and makes it
    /// the call card.
    pub fn validate_play(&mut self, card: &Card) -> (r: Result<(), GameErrors>)
        requires
            running(old(self)@),
        ensures
            r is Ok <==> hand_of(old(self)@, cur(old(self)@)).contains(*card) && matches_call(
                *card,
                old(self).call_card->Some_0,
            ),
            r is Ok ==> final(self)@ == (GameView {
                call_card: Some(*card),
                ..with_hand(
                    old(self)@,
                    cur(old(self)@),
                    remove_one(hand_of(old(self)@, cur(old(self)@)), *card),
                )
            }),
            r is Err ==> r == Err::<(), GameErrors>(GameErrors::CannotPlayCard) && *final(self) == *old(
                self,
            ),
    {
        let ghost v0 = self@;
        proof {
            lemma_views(self.players@);
        }
        let call = match self.call_card {
            Some(c) => c,
            None => {
                return Err(GameErrors::CannotPlayCard);
            },
        };
        if !(card.id == call.id || card.card_number == call.card_number) {
            return Err(GameErrors::CannotPlayCard);
        }
        let i = (self.player_turn - 1) as usize;
        assert(self@.players[i as int] == self.players@[i as int]@);
        let pos = match &self.players[i].hand {
            Some(h) => position_of(h, card),
            None => None,
        };
        let k = match pos {
            Some(k) => k,
            None => {
                return Err(GameErrors::CannotPlayCard);
            },
        };
        match &mut self.players[i].hand {
            Some(h) => {
                h.remove(k);
            },
            None => {},
        }
        self.call_card = Some(*card);
        proof {
            lemma_views(self.players@);
            let target = GameView {
                call_card: Some(*card),
                ..with_hand(v0, i as int, remove_one(hand_of(v0, i as int), *card))
            };
            assert(self@.players =~~= target.players);
            assert(self@ =~~= target);
        }
        Ok(())
    }

    /// The current player `who` plays `card` at time `now`.
    pub fn play_card(&mut self, who: &Identity, card: Card, now: i64) -> (r: Result<(), GameErrors>)
        ensures
            match r {
                Ok(()) => play_error(old(self)@, *who, card) is None && final(self)@ == played(
                    old(self)@,
                    card,
                    now,
                ),
                Err(e) => play_error(old(self)@, *who, card) == Some(e) && *final(self) == *old(self),
            },
    {
        match self.move_check(who) {
            Some(e) => {
                return Err(e);
            },
            None => {},
        }
        let ghost v0 = self@;
        self.validate_play(&card)?;
        proof {
            lemma_views(self.players@);
            let w = self@;
            assert(w.players.len() == v0.players.len());
            assert forall|m: int| 0 <= m < w.players.len() implies {
                &&& (#[trigger] w.players[m]).hand is Some
                &&& w.players[m].player_index == Some((m + 1) as u8)
            } by {
                if m != cur(v0) {
                    assert(w.players[m] == v0.players[m]);
                }
            }
        }
        self.handle_call_card(now);
        assert(GameView { last_move_time: Some(now), ..v0 }.player_turn == v0.player_turn);
        Ok(())
    }

    /// The current player draws the top card of the pile, then the turn passes.
    pub fn handle_draw_from_pile(&mut self, now: i64)
        requires
            running(old(self)@),
            pile_of(old(self)@).len() > 0,
        ensures
            final(self)@ == settled_then_advanced(give_top(old(self)@, cur(old(self)@)), now, 1),
    {
        let idx = (self.player_turn - 1) as usize;
        proof {
            lemma_views(self.players@);
            lemma_give_top(self@, idx as int);
        }
        self.give_top_card(idx);
        self.settle_and_pass(now, 1);
    }

    /// The current player `who` draws from the pile at time `now`.
    pub fn draw_from_pile(&mut self, who: &Identity, now: i64) -> (r: Result<(), GameErrors>)
        ensures
            match r {
                Ok(()) => draw_error(old(self)@, *who) is None && final(self)@ == drawn(old(self)@, now),
                Err(e) => draw_error(old(self)@, *who) == Some(e) && *final(self) == *old(self),
            },
    {
        match self.move_check(who) {
            Some(e) => {
                return Err(e);
            },
            None => {},
        }
        if self.pile_is_empty() {
            return Err(GameErrors::NoDrawPile);
        }
        self.last_move_time = Some(now);
        self.handle_draw_from_pile(now);
        Ok(())
    }

    /// The penalty path at time `now`: if the current player is overdue, they
    /// draw one card and lose the turn; an empty pile finishes the market.
    pub fn handle_penalize_opponent(&mut self, now: i64)
        requires
            running(old(self)@),
        ensures
            final(self)@ == penalized(old(self)@, now),
    {
        let last = match self.last_move_time {
            Some(t) => t,
            None => match self.started_at {
                Some(t) => t,
                None => now,
            },
        };
        if (now as i128) - (last as i128) <= self.wait_time as i128 {
            return ;
        }
        self.last_move_time = Some(now);
        proof {
            lemma_views(self.players@);
        }
        if self.pile_is_empty() {
            self.handle_market_finish(now);
            return ;
        }
        let idx = (self.player_turn - 1) as usize;
        proof {
            lemma_give_top(self@, idx as int);
        }
        self.give_top_card(idx);
        self.settle_and_pass(now, 1);
    }

    /// `who`, not the current player, asks at time `now` that an overdue
    /// current player be penalized.
    pub fn penalize_opponent(&mut self, who: &Identity, now: i64) -> (r: Result<(), GameErrors>)
        ensures
            match r {
                Ok(()) => penalty_error(old(self)@, *who) is None && final(self)@ == penalized(
                    old(self)@,
                    now,
                ),
                Err(e) => penalty_error(old(self)@, *who) == Some(e) && *final(self) == *old(self),
            },
    {
        match self.penalty_check(who) {
            Some(e) => {
                return Err(e);
            },
            None => {},
        }
        self.handle_penalize_opponent(now);
        Ok(())
    }

    /// Creates a game for `no_players` players with a wait window of
    /// `wait_time` seconds.
    pub fn initialize_game(
        owner: Identity,
        seed: u64,
        entry_stake: u64,
        no_players: u8,
        wait_time: i64,
        stake_mint: Identity,
        now: i64,
    ) -> (r: Result<Game, GameErrors>)
        ensures
            match r {
                Ok(g) => create_error(no_players, wait_time) is None && g@ == fresh_game(
                    owner,
                    seed,
                    entry_stake,
                    no_players,
                    wait_time,
                    stake_mint,
                    now,
                ),
                Err(e) => create_error(no_players, wait_time) == Some(e),
            },
    {
        if no_players < MIN_NO_PLAYERS || no_players > MAX_NO_PLAYERS {
            return Err(GameErrors::InvalidNoPlayers);
        }
        if wait_time < MIN_WAIT_TIME || wait_time > MAX_WAIT_TIME {
            return Err(GameErrors::InvalidWaitTimeRange);
        }
        let g = Game {
            owner,
            entry_stake,
            stake_mint,
            seed,
            no_players,
            player_turn: 1,
            players: Vec::new(),
            winner: None,
            call_card: None,
            draw_pile: None,
            wait_time,
            random_seed: None,
            delegated: false,
            started: false,
            ended: false,
            created_at: now,
            started_at: None,
            ended_at: None,
            last_move_time: None,
        };
        assert(g@.players =~= Seq::<PlayerView>::empty());
        Ok(g)
    }

    /// Whether every seat is taken.
    pub fn is_full(&self) -> (r: bool)
        ensures
            r == (self.players@.len() == self.no_players),
    {
        self.players.len() == self.no_players as usize
    }

    /// `who` joins with `balance` stake tokens; `mint_allowed` tells whether
    /// the stake asset is accepted.
    pub fn join_game(&mut self, who: Identity, username: String, balance: u64, mint_allowed: bool) -> (r:
        Result<(), GameErrors>)
        ensures
            match r {
                Ok(()) => join_error(old(self)@, balance, mint_allowed) is None && final(self)@ == (
                GameView { players: old(self)@.players.push(newcomer(who, username@)), ..old(self)@ }),
                Err(e) => join_error(old(self)@, balance, mint_allowed) == Some(e) && *final(self)
                    == *old(self),
            },
    {
        if self.started || self.players.len() >= self.no_players as usize {
            return Err(GameErrors::PlayersAlreadyComplete);
        }
        if balance < self.entry_stake {
            return Err(GameErrors::InsufficientFunds);
        }
        if !mint_allowed {
            return Err(GameErrors::InvalidMint);
        }
        let ghost v0 = self@;
        let p = Player {
            owner: who,
            username,
            hand: None,
            player_index: None,
            card_count: None,
            claimed: false,
        };
        self.players.push(p);
        proof {
            lemma_views(self.players@);
            lemma_views(old(self).players@);
        }
        assert(self@.players =~~= v0.players.push(newcomer(who, username@)));
        assert(self@ =~~= GameView { players: v0.players.push(newcomer(who, username@)), ..v0 });
        Ok(())
    }

    /// Deals `deck` (a full deck, already shuffled with `random_seed`) at time
    /// `now` and starts the game.
    pub fn deal(&mut self, deck: &Vec<Card>, random_seed: u64, now: i64) -> (r: Result<(), GameErrors>)
        requires
            deck@.len() == DECK_SIZE,
        ensures
            match r {
                Ok(()) => deal_error(old(self)@) is None && final(self)@ == dealt(
                    old(self)@,
                    deck@,
                    random_seed,
                    now,
                ),
                Err(e) => deal_error(old(self)@) == Some(e) && *final(self) == *old(self),
            },
    {
        if self.started {
            return Err(GameErrors::GameAlreadyStarted);
        }
        if self.ended {
            return Err(GameErrors::GameEnded);
        }
        if self.no_players < 2 || self.no_players > 5 || self.players.len() != self.no_players as usize {
            return Err(GameErrors::InvalidGameState);
        }
        let ghost v0 = self@;
        let ghost target = dealt(v0, deck@, random_seed, now);
        let n = self.players.len();
        proof {
            lemma_views(self.players@);
        }
        let mut i: usize = 0;
        while i < n
            invariant
                n == v0.players.len(),
                2 <= n <= 5,
                deck@.len() == DECK_SIZE,
                i <= n,
                self.players@.len() == n,
                target == dealt(v0, deck@, random_seed, now),
                self@ == (GameView { players: self@.players, ..v0 }),
                forall|m: int| 0 <= m < n ==> #[trigger] player_views(self.players@)[m] == self.players@[m]@,
                forall|m: int|
                    0 <= m < n ==> #[trigger] self@.players[m] == if m < i {
                        target.players[m]
                    } else {
                        v0.players[m]
                    },
            decreases n - i,
        {
            let hand = cards_between(deck, CARDS_PER_PLAYER * i, CARDS_PER_PLAYER * i + CARDS_PER_PLAYER);
            let ghost pre = self.players@;
            let ghost pre_view = self@.players;
            assert(self@.players[i as int] == v0.players[i as int]);
            assert(player_views(pre)[i as int] == pre[i as int]@);
            assert(pre[i as int]@ == v0.players[i as int]);
            assert(target.players[i as int] == (PlayerView {
                hand: Some(deck@.subrange(5 * i, 5 * i + 5)),
                player_index: Some((i + 1) as u8),
                ..v0.players[i as int]
            }));
            self.players[i].hand = Some(hand);
            self.players[i].player_index = Some((i + 1) as u8);
            proof {
                lemma_views(self.players@);
                assert(self@.players[i as int] == target.players[i as int]);
                assert(self@.players =~= pre_view.update(i as int, target.players[i as int]));
            }
            i = i + 1;
        }
        let start = CARDS_PER_PLAYER * n;
        self.call_card = Some(deck[start]);
        self.draw_pile = Some(cards_between(deck, start + 1, deck.len()));
        self.random_seed = Some(random_seed);
        self.started = true;
        self.started_at = Some(now);
        self.player_turn = 1;
        self.last_move_time = Some(now);
        assert(self@.players =~~= target.players);
        assert(self@ =~~= target);
        Ok(())
    }

    /// The randomness callback: reduces the 32-byte random value to a seed,
    /// shuffles a full deck with it, and deals at time `now`.
    pub fn consume_randomness(&mut self, randomness: &[u8; 32], now: i64) -> (r: Result<
        (),
        GameErrors,
    >)
        ensures
            match r {
                Ok(()) => deal_error(old(self)@) is None && final(self)@ == dealt(
                    old(self)@,
                    shuffled(vrf_seed(randomness@)),
                    vrf_seed(randomness@),
                    now,
                ),
                Err(e) => deal_error(old(self)@) == Some(e) && *final(self) == *old(self),
            },
    {
        let random_seed = seed_from_randomness(randomness);
        let deck = shuffle_cards(random_seed);
        proof {
            crate::card::lemma_canonical_deck_len();
        }
        self.deal(&deck, random_seed, now)
    }

    /// `who` leaves the game; `vault_amount` is what the game's vault holds.
    pub fn exit_game(&mut self, who: &Identity, vault_amount: u64) -> (r: Result<(), GameErrors>)
        ensures
            match r {
                Ok(()) => exit_error(old(self)@, *who, vault_amount) is None && final(self)@ == exited(
                    old(self)@,
                    *who,
                ),
                Err(e) => exit_error(old(self)@, *who, vault_amount) == Some(e) && *final(self)
                    == *old(self),
            },
    {
        let i = match self.find_player(who) {
            Some(i) => i,
            None => {
                return Err(GameErrors::PlayerNotFound);
            },
        };
        if vault_amount < self.entry_stake {
            return Err(GameErrors::InsufficientFunds);
        }
        let ghost v0 = self@;
        if same_identity(&self.owner, who) {
            self.ended = true;
            self.winner = None;
            self.player_turn = 0;
        }
        let ghost pre = self.players@;
        self.players.remove(i);
        proof {
            lemma_views(pre);
            lemma_views(self.players@);
            assert(self@.players =~~= player_views(pre).remove(i as int));
        }
        assert(self@ =~~= exited(v0, *who));
        Ok(())
    }

    /// `who` claims after the end: the winner takes the vault (`vault_amount`)
    /// less the platform's share of `platform_fee` hundredths of a percent;
    /// after a tie every player takes back the entry stake. `fee_wallet_ok`
    /// tells whether the fee goes to the platform's own wallet.
    pub fn claim_prize(
        &mut self,
        who: &Identity,
        vault_amount: u64,
        platform_fee: u16,
        fee_wallet_ok: bool,
    ) -> (r: Result<Payout, GameErrors>)
        requires
            platform_fee <= 10_000,
        ensures
            match r {
                Ok(p) => claim_error(old(self)@, *who, fee_wallet_ok) is None && p == claim_payout(
                    old(self)@,
                    vault_amount,
                    platform_fee,
                ) && final(self)@ == claimed(old(self)@, *who),
                Err(e) => claim_error(old(self)@, *who, fee_wallet_ok) == Some(e) && *final(self)
                    == *old(self),
            },
    {
        if !self.ended {
            return Err(GameErrors::GameNotEnded);
        }
        proof {
            lemma_views(self.players@);
        }
        let i = match self.find_player(who) {
            Some(i) => i,
            None => {
                return Err(GameErrors::PlayerNotFound);
            },
        };
        assert(self@.players[i as int] == self.players@[i as int]@);
        if self.players[i].claimed {
            return Err(GameErrors::AlreadyClaimed);
        }
        if !fee_wallet_ok {
            return Err(GameErrors::InvalidAuthority);
        }
        let payout = match self.winner {
            Some(w) => {
                if !same_identity(&w, who) {
                    return Err(GameErrors::YouAreNotWinner);
                }
                let va = vault_amount as u128;
                let pf = platform_fee as u128;
                assert(va * pf <= va * 10_000 && va * pf / 10_000 <= va) by (nonlinear_arith)
                    requires
                        pf <= 10_000,
                        va <= 0xffff_ffff_ffff_ffff,
                ;
                let fee = (va * pf / 10_000) as u64;
                Payout { amount: vault_amount - fee, fee }
            },
            None => Payout { amount: self.entry_stake, fee: 0 },
        };
        let ghost v0 = self@;
        let ghost pre = self.players@;
        self.players[i].claimed = true;
        proof {
            lemma_views(pre);
            lemma_views(self.players@);
            assert(self@.players =~~= claimed(v0, *who).players);
        }
        assert(self@ =~~= claimed(v0, *who));
        Ok(payout)
    }
}

/// The cards of `deck` from position `a` up to `b`.
pub fn cards_between(deck: &Vec<Card>, a: usize, b: usize) -> (r: Vec<Card>)
    requires
        a <= b <= deck@.len(),
    ensures
        r@ == deck@.subrange(a as int, b as int),
{
    let mut out: Vec<Card> = Vec::new();
    let mut k: usize = a;
    while k < b
        invariant
            a <= k <= b,
            b <= deck@.len(),
            out@ == deck@.subrange(a as int, k as int),
        decreases b - k,
    {
        out.push(deck[k]);
        k = k + 1;
        assert(out@ =~= deck@.subrange(a as int, k as int));
    }
    out
}

/// Position of the first copy of `c` in `h`.
pub fn position_of(h: &Vec<Card>, c: &Card) -> (r: Option<usize>)
    ensures
        match r {
            Some(k) => h@.contains(*c) && k == first_index(h@, *c) && k < h@.len(),
            None => !h@.contains(*c),
        },
{
    let mut k: usize = 0;
    while k < h.len()
        invariant
            k <= h@.len(),
            forall|m: int| 0 <= m < k ==> h@[m] != *c,
        decreases h@.len() - k,
    {
        if h[k] == *c {
            proof {
                assert(h@[k as int] == *c);
                let j = first_index(h@, *c);
                assert(0 <= j < h@.len() && h@[j] == *c && forall|m: int| 0 <= m < j ==> h@[m] != *c);
                if j < k {
                } else if j > k {
                }
            }
            return Some(k);
        }
        k = k + 1;
    }
    None
}

/// What drawing the top card keeps of a running game.
pub proof fn lemma_give_top(v: GameView, i: int)
    requires
        running(v),
        0 <= i < v.players.len(),
        pile_of(v).len() > 0,
    ensures
        running(give_top(v, i)),
        give_top(v, i).players.len() == v.players.len(),
{
    let w = give_top(v, i);
    assert forall|m: int| 0 <= m < w.players.len() implies {
        &&& (#[trigger] w.players[m]).hand is Some
        &&& w.players[m].player_index == Some((m + 1) as u8)
    } by {
        if m != i {
            assert(w.players[m] == v.players[m]);
        }
    }
}

} // verus!
