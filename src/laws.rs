use vstd::prelude::*;
use crate::card::{Card, canonical_deck, DECK_SIZE};
use vstd::seq_lib::lemma_multiset_commutative;
use vstd::multiset::Multiset;
use crate::shuffle::{fisher_yates, shuffled, le_value, chain_step, lemma_swap_multiset};
use crate::game::{
    PlayerView, cards_of, scored, first_index, vrf_seed,
    Identity, GameView, running, settled, settled_then_advanced, market_finished, score_of,
    sole_lowest, pile_empty, current_hand_empty, draw_up_to, pile_of, give_top, lemma_give_top,
    market_round, cur, effect_of, PICK_TWO, PICK_THREE, GENERAL_MARKET, SUSPENSION,
    with_hand, create_error, fresh_game, newcomer, deal_error, dealt, in_roster, exited, claimed,
    play_error, played, remove_one, hand_of, draw_error, drawn, penalty_error, penalized, elapsed,
};

verus! {

proof fn lemma_fisher_yates_permutes(d: Seq<Card>, seed: Seq<u8>, i: nat)
    requires
        i < d.len(),
    ensures
        fisher_yates(d, seed, i).to_multiset() == d.to_multiset(),
        fisher_yates(d, seed, i).len() == d.len(),
    decreases i,
{
    if i > 0 {
        let h = chain_step(seed, i);
        let j = (le_value(h) % (i + 1)) as int;
        lemma_swap_multiset(d, i as int, j);
        lemma_fisher_yates_permutes(
            crate::shuffle::swap_at(d, i as int, j),
            h,
            (i - 1) as nat,
        );
    }
}

/// Whatever the seed, the shuffled deck holds exactly the cards of the
/// canonical deck, each as often.
pub proof fn shuffle_is_a_permutation(seed: u64)
    ensures
        shuffled(seed).to_multiset() == canonical_deck().to_multiset(),
        shuffled(seed).len() == DECK_SIZE,
{
    crate::card::lemma_canonical_deck_len();
    lemma_fisher_yates_permutes(
        canonical_deck(),
        crate::shuffle::le_bytes(seed as nat, 8),
        (DECK_SIZE - 1) as nat,
    );
}

/// Once the game has ended, the termination check changes nothing: running
/// it again, at any later time, leaves the outcome, the end time and the
/// scores as the first run left them.
pub proof fn termination_check_is_idempotent(v: GameView, now: i64, later: i64)
    ensures
        settled(settled(v, now), later) == settled(v, now),
        v.ended ==> settled(v, later) == v,
{
}

/// When the market finishes with two players sharing the lowest score, there
/// is no winner and the game is over.
pub proof fn tie_at_market_finish_has_no_winner(v: GameView, now: i64, i: int, j: int)
    requires
        !v.ended,
        0 <= i < v.players.len(),
        0 <= j < v.players.len(),
        i != j,
        score_of(v.players[i]) == score_of(v.players[j]),
        forall|k: int| 0 <= k < v.players.len() ==> score_of(v.players[i]) <= score_of(#[trigger] v.players[k]),
    ensures
        market_finished(v, now).winner is None,
        market_finished(v, now).ended,
        pile_empty(v) && !current_hand_empty(v) ==> settled(v, now).winner is None && settled(
            v,
            now,
        ).ended,
{
    assert forall|k: int| !sole_lowest(v.players, k) by {
        if sole_lowest(v.players, k) {
            if k == i {
                assert(score_of(v.players[i]) < score_of(v.players[j]));
            } else {
                assert(score_of(v.players[k]) < score_of(v.players[i]));
            }
        }
    }
}

// ---------------------------------------------------------------------------
// The turn pointer.

/// The turn is on a seat while the game runs, and 0 exactly when it ended.
pub open spec fn turn_in_bounds(v: GameView) -> bool {
    &&& v.started && !v.ended ==> 1 <= v.player_turn <= v.no_players
    &&& v.player_turn == 0 <==> v.ended
}

proof fn lemma_draw_up_to_running(v: GameView, i: int, k: nat)
    requires
        running(v),
        0 <= i < v.players.len(),
    ensures
        running(draw_up_to(v, i, k)),
        draw_up_to(v, i, k).player_turn == v.player_turn,
        draw_up_to(v, i, k).no_players == v.no_players,
        draw_up_to(v, i, k).players.len() == v.players.len(),
    decreases k,
{
    if k > 0 && pile_of(v).len() > 0 {
        lemma_give_top(v, i);
        lemma_draw_up_to_running(give_top(v, i), i, (k - 1) as nat);
    }
}

proof fn lemma_market_round_running(v: GameView, j: nat)
    requires
        running(v),
        j < v.no_players,
    ensures
        running(market_round(v, j)),
        market_round(v, j).player_turn == v.player_turn,
        market_round(v, j).no_players == v.no_players,
        market_round(v, j).players.len() == v.players.len(),
    decreases j,
{
    if j > 0 {
        lemma_market_round_running(v, (j - 1) as nat);
        let w = market_round(v, (j - 1) as nat);
        if pile_of(w).len() > 0 {
            lemma_give_top(w, (cur(v) + j) % (v.no_players as int));
        }
    }
}

proof fn lemma_settled_turn(v: GameView, now: i64, step: u8)
    requires
        running(v),
        1 <= step <= 2,
    ensures
        turn_in_bounds(settled(v, now)),
        turn_in_bounds(settled_then_advanced(v, now, step)),
        settled(v, now).started,
        settled_then_advanced(v, now, step).started,
{
    let s = settled(v, now);
    if !s.ended {
        assert(s == v);
        assert(1 <= ((v.player_turn - 1 + step) % (v.no_players as int) + 1) <= v.no_players);
    }
}

proof fn lemma_effect_turn(v: GameView, rank: u8, now: i64)
    requires
        running(v),
    ensures
        turn_in_bounds(effect_of(v, rank, now)),
{
    let n = v.no_players as int;
    let next = (v.player_turn as int) % n;
    if rank == PICK_TWO {
        lemma_draw_up_to_running(v, next, 2);
        lemma_settled_turn(draw_up_to(v, next, 2), now, 2);
    } else if rank == PICK_THREE {
        lemma_draw_up_to_running(v, next, 3);
        lemma_settled_turn(draw_up_to(v, next, 3), now, 2);
    } else if rank == GENERAL_MARKET {
        lemma_market_round_running(v, (v.no_players - 1) as nat);
        lemma_settled_turn(market_round(v, (v.no_players - 1) as nat), now, 1);
    } else if rank == SUSPENSION {
        lemma_settled_turn(v, now, 2);
    } else {
        lemma_settled_turn(v, now, 1);
    }
}

proof fn lemma_with_hand_running(v: GameView, i: int, h: Seq<Card>)
    requires
        running(v),
        0 <= i < v.players.len(),
    ensures
        running(with_hand(v, i, h)),
{
    let w = with_hand(v, i, h);
    assert forall|m: int| 0 <= m < w.players.len() implies {
        &&& (#[trigger] w.players[m]).hand is Some
        &&& w.players[m].player_index == Some((m + 1) as u8)
    } by {
        if m != i {
            assert(w.players[m] == v.players[m]);
        }
    }
}

/// A new game has its turn pointer in bounds.
pub proof fn turn_bound_at_creation(
    owner: Identity,
    seed: u64,
    entry_stake: u64,
    no_players: u8,
    wait_time: i64,
    stake_mint: Identity,
    now: i64,
)
    requires
        create_error(no_players, wait_time) is None,
    ensures
        turn_in_bounds(fresh_game(owner, seed, entry_stake, no_players, wait_time, stake_mint, now)),
{
}

/// Joining, dealing, leaving and claiming keep the turn pointer in bounds.
pub proof fn turn_bound_kept_by_roster_changes(
    v: GameView,
    who: Identity,
    username: Seq<char>,
    deck: Seq<Card>,
    random_seed: u64,
    now: i64,
)
    requires
        turn_in_bounds(v),
    ensures
        turn_in_bounds(GameView { players: v.players.push(newcomer(who, username)), ..v }),
        deal_error(v) is None ==> turn_in_bounds(dealt(v, deck, random_seed, now)),
        in_roster(v, who) ==> turn_in_bounds(exited(v, who)),
        turn_in_bounds(claimed(v, who)),
{
}

/// An accepted play keeps the turn pointer in bounds.
pub proof fn turn_bound_kept_by_play(v: GameView, who: Identity, card: Card, now: i64)
    requires
        play_error(v, who, card) is None,
    ensures
        turn_in_bounds(played(v, card, now)),
{
    let i = cur(v);
    let v0 = with_hand(v, i, remove_one(hand_of(v, i), card));
    lemma_with_hand_running(v, i, remove_one(hand_of(v, i), card));
    let v1 = GameView { call_card: Some(card), last_move_time: Some(now), ..v0 };
    assert(running(v1));
    lemma_effect_turn(v1, card.card_number, now);
}

/// An accepted draw keeps the turn pointer in bounds.
pub proof fn turn_bound_kept_by_draw(v: GameView, who: Identity, now: i64)
    requires
        draw_error(v, who) is None,
    ensures
        turn_in_bounds(drawn(v, now)),
{
    let v1 = GameView { last_move_time: Some(now), ..v };
    lemma_give_top(v1, cur(v));
    lemma_settled_turn(give_top(v1, cur(v)), now, 1);
}

/// An accepted penalty request keeps the turn pointer in bounds.
pub proof fn turn_bound_kept_by_penalty(v: GameView, who: Identity, now: i64)
    requires
        penalty_error(v, who) is None,
    ensures
        turn_in_bounds(penalized(v, now)),
{
    let v1 = GameView { last_move_time: Some(now), ..v };
    if elapsed(v, now) > v.wait_time && pile_of(v1).len() > 0 {
        lemma_give_top(v1, cur(v));
        lemma_settled_turn(give_top(v1, cur(v)), now, 1);
    }
}

// ---------------------------------------------------------------------------
// Custody of the cards.

/// All cards held in hands, player by player.
pub open spec fn hands_total(ps: Seq<PlayerView>) -> Multiset<Card>
    decreases ps.len(),
{
    if ps.len() == 0 {
        Multiset::empty()
    } else {
        hands_total(ps.drop_last()).add(cards_of(ps.last()).to_multiset())
    }
}

pub open spec fn call_cards(v: GameView) -> Multiset<Card> {
    match v.call_card {
        Some(c) => Multiset::singleton(c),
        None => Multiset::empty(),
    }
}

/// The cards in the hands, in the pile and on the call.
pub open spec fn cards_in_play(v: GameView) -> Multiset<Card> {
    hands_total(v.players).add(pile_of(v).to_multiset()).add(call_cards(v))
}

/// The cards in play are exactly those of the canonical deck.
pub open spec fn deck_conserved(v: GameView) -> bool {
    cards_in_play(v) == canonical_deck().to_multiset()
}

proof fn lemma_hands_update(ps: Seq<PlayerView>, i: int, p: PlayerView)
    requires
        0 <= i < ps.len(),
    ensures
        hands_total(ps.update(i, p)).add(cards_of(ps[i]).to_multiset()) == hands_total(ps).add(
            cards_of(p).to_multiset(),
        ),
    decreases ps.len(),
{
    broadcast use vstd::multiset::group_multiset_axioms;

    let qs = ps.update(i, p);
    let hq = hands_total(qs.drop_last());
    let hp = hands_total(ps.drop_last());
    let o = cards_of(ps[i]).to_multiset();
    let n = cards_of(p).to_multiset();
    assert(hands_total(qs) == hq.add(cards_of(qs.last()).to_multiset()));
    assert(hands_total(ps) == hp.add(cards_of(ps.last()).to_multiset()));
    if i == ps.len() - 1 {
        assert(qs.drop_last() =~= ps.drop_last());
        assert(hq == hp);
        assert(qs.last() == p);
        assert(hq.add(n).add(o) =~= hp.add(o).add(n));
    } else {
        assert(qs.drop_last() =~= ps.drop_last().update(i, p));
        assert(qs.last() == ps.last());
        assert(ps.drop_last()[i] == ps[i]);
        lemma_hands_update(ps.drop_last(), i, p);
        assert(hq.add(o) == hp.add(n));
        let l = cards_of(ps.last()).to_multiset();
        assert(hq.add(l).add(o) =~= hp.add(l).add(n)) by {
            assert forall|x: Card| #[trigger] hq.add(l).add(o).count(x) == hp.add(l).add(n).count(x) by {
                assert(hq.add(o).count(x) == hp.add(n).count(x));
            }
        }
    }
}

proof fn lemma_hands_same_cards(ps: Seq<PlayerView>, qs: Seq<PlayerView>)
    requires
        ps.len() == qs.len(),
        forall|i: int| 0 <= i < ps.len() ==> cards_of(#[trigger] ps[i]) == cards_of(qs[i]),
    ensures
        hands_total(ps) == hands_total(qs),
    decreases ps.len(),
{
    if ps.len() > 0 {
        lemma_hands_same_cards(ps.drop_last(), qs.drop_last());
    }
}

proof fn lemma_scored_conserves(v: GameView)
    ensures
        cards_in_play(scored(v)) == cards_in_play(v),
{
    lemma_hands_same_cards(scored(v).players, v.players);
}

proof fn lemma_give_top_conserves(v: GameView, i: int)
    requires
        0 <= i < v.players.len(),
        pile_of(v).len() > 0,
        v.draw_pile is Some,
    ensures
        cards_in_play(give_top(v, i)) == cards_in_play(v),
{
    broadcast use vstd::seq_lib::group_to_multiset_ensures;
    broadcast use vstd::multiset::group_multiset_axioms;

    let pile = pile_of(v);
    let top = pile.last();
    let h = cards_of(v.players[i]);
    let w = give_top(v, i);
    assert(pile.drop_last().push(top) =~= pile);
    assert(pile.to_multiset() =~= pile.drop_last().to_multiset().insert(top));
    let np = PlayerView { hand: Some(h.push(top)), ..v.players[i] };
    assert(w.players == v.players.update(i, np));
    lemma_hands_update(v.players, i, np);
    assert(cards_of(np).to_multiset() =~= h.to_multiset().insert(top));
    let hn = hands_total(w.players);
    let ho = hands_total(v.players);
    let hm = h.to_multiset();
    let nm = cards_of(np).to_multiset();
    assert(hn.add(hm) == ho.add(nm));
    assert(hn =~= ho.insert(top)) by {
        assert forall|x: Card| #[trigger] hn.count(x) == ho.insert(top).count(x) by {
            assert(hn.add(hm).count(x) == ho.add(nm).count(x));
        }
    }
    assert(cards_in_play(w) =~= cards_in_play(v));
}

proof fn lemma_draw_up_to_conserves(v: GameView, i: int, k: nat)
    requires
        0 <= i < v.players.len(),
        v.draw_pile is Some,
    ensures
        cards_in_play(draw_up_to(v, i, k)) == cards_in_play(v),
    decreases k,
{
    if k > 0 && pile_of(v).len() > 0 {
        lemma_give_top_conserves(v, i);
        lemma_draw_up_to_conserves(give_top(v, i), i, (k - 1) as nat);
    }
}

proof fn lemma_market_round_conserves(v: GameView, j: nat)
    requires
        running(v),
        j < v.no_players,
    ensures
        cards_in_play(market_round(v, j)) == cards_in_play(v),
    decreases j,
{
    if j > 0 {
        lemma_market_round_conserves(v, (j - 1) as nat);
        lemma_market_round_running(v, (j - 1) as nat);
        let w = market_round(v, (j - 1) as nat);
        if pile_of(w).len() > 0 {
            lemma_give_top_conserves(w, (cur(v) + j) % (v.no_players as int));
        }
    }
}

proof fn lemma_settled_conserves(v: GameView, now: i64, step: u8)
    ensures
        cards_in_play(settled(v, now)) == cards_in_play(v),
        cards_in_play(settled_then_advanced(v, now, step)) == cards_in_play(v),
        cards_in_play(market_finished(v, now)) == cards_in_play(v),
{
    lemma_scored_conserves(v);
}

proof fn lemma_effect_conserves(v: GameView, rank: u8, now: i64)
    requires
        running(v),
    ensures
        cards_in_play(effect_of(v, rank, now)) == cards_in_play(v),
{
    let n = v.no_players as int;
    let next = (v.player_turn as int) % n;
    if rank == PICK_TWO {
        lemma_draw_up_to_conserves(v, next, 2);
        lemma_draw_up_to_running(v, next, 2);
        lemma_settled_conserves(draw_up_to(v, next, 2), now, 2);
    } else if rank == PICK_THREE {
        lemma_draw_up_to_conserves(v, next, 3);
        lemma_draw_up_to_running(v, next, 3);
        lemma_settled_conserves(draw_up_to(v, next, 3), now, 2);
    } else if rank == GENERAL_MARKET {
        lemma_market_round_conserves(v, (v.no_players - 1) as nat);
        lemma_settled_conserves(market_round(v, (v.no_players - 1) as nat), now, 1);
    } else if rank == SUSPENSION {
        lemma_settled_conserves(v, now, 2);
    } else {
        lemma_settled_conserves(v, now, 1);
    }
}

/// Position of the first `c` in `h` at or after `k`.
spec fn scan_for(h: Seq<Card>, c: Card, k: int) -> int
    decreases h.len() - k,
{
    if k < 0 || k >= h.len() {
        k
    } else if h[k] == c {
        k
    } else {
        scan_for(h, c, k + 1)
    }
}

proof fn lemma_scan_for(h: Seq<Card>, c: Card, k: int, j: int)
    requires
        0 <= k <= j < h.len(),
        h[j] == c,
        forall|m: int| 0 <= m < k ==> h[m] != c,
    ensures
        0 <= scan_for(h, c, k) < h.len(),
        h[scan_for(h, c, k)] == c,
        forall|m: int| 0 <= m < scan_for(h, c, k) ==> h[m] != c,
    decreases h.len() - k,
{
    if h[k] != c {
        lemma_scan_for(h, c, k + 1, j);
    }
}

proof fn lemma_first_index(h: Seq<Card>, c: Card)
    requires
        h.contains(c),
    ensures
        0 <= first_index(h, c) < h.len(),
        h[first_index(h, c)] == c,
{
    let j = choose|j: int| 0 <= j < h.len() && h[j] == c;
    lemma_scan_for(h, c, 0, j);
    let w = scan_for(h, c, 0);
    assert(0 <= w < h.len() && h[w] == c && forall|m: int| 0 <= m < w ==> h[m] != c);
}

/// The deal from a seed puts the whole canonical deck in play: every card in
/// a hand, in the pile or on the call, each as often as in the deck.
pub proof fn conservation_at_deal(v: GameView, randomness: Seq<u8>, now: i64)
    requires
        deal_error(v) is None,
    ensures
        deck_conserved(dealt(v, shuffled(vrf_seed(randomness)), vrf_seed(randomness), now)),
{
    let seed = vrf_seed(randomness);
    let deck = shuffled(seed);
    shuffle_is_a_permutation(seed);
    let w = dealt(v, deck, seed, now);
    let n = v.no_players as int;
    lemma_dealt_hands(w.players, deck);
    assert(deck.subrange(0, 5 * n) + deck.subrange(5 * n, deck.len() as int) =~= deck);
    lemma_multiset_commutative(deck.subrange(0, 5 * n), deck.subrange(5 * n, deck.len() as int));
    let rest = deck.subrange(5 * n, deck.len() as int);
    assert(seq![deck[5 * n]] + deck.subrange(5 * n + 1, deck.len() as int) =~= rest);
    lemma_multiset_commutative(seq![deck[5 * n]], deck.subrange(5 * n + 1, deck.len() as int));
    broadcast use vstd::seq_lib::group_to_multiset_ensures;
    assert(seq![deck[5 * n]] =~= Seq::<Card>::empty().push(deck[5 * n]));
    assert(Seq::<Card>::empty().to_multiset() =~= Multiset::empty());
    assert(cards_in_play(w) =~= deck.to_multiset());
}

proof fn lemma_dealt_hands(ps: Seq<PlayerView>, deck: Seq<Card>)
    requires
        5 * ps.len() <= deck.len(),
        forall|i: int| 0 <= i < ps.len() ==> cards_of(#[trigger] ps[i]) == deck.subrange(5 * i, 5 * i + 5),
    ensures
        hands_total(ps) == deck.subrange(0, 5 * (ps.len() as int)).to_multiset(),
    decreases ps.len(),
{
    if ps.len() > 0 {
        let k = ps.len() - 1;
        lemma_dealt_hands(ps.drop_last(), deck);
        assert(deck.subrange(0, 5 * k) + deck.subrange(5 * k, 5 * k + 5) =~= deck.subrange(0, 5 * (ps.len() as int)));
        lemma_multiset_commutative(deck.subrange(0, 5 * k), deck.subrange(5 * k, 5 * k + 5));
        assert(cards_of(ps.last()) == deck.subrange(5 * k, 5 * k + 5));
    } else {
        assert(deck.subrange(0, 0) =~= Seq::<Card>::empty());
        broadcast use vstd::seq_lib::group_to_multiset_ensures;
        assert(Seq::<Card>::empty().to_multiset() =~= Multiset::empty());
    }
}

/// An accepted draw keeps every card in play: it only moves the top of the
/// pile into a hand.
pub proof fn conservation_kept_by_draw(v: GameView, who: Identity, now: i64)
    requires
        draw_error(v, who) is None,
    ensures
        cards_in_play(drawn(v, now)) == cards_in_play(v),
{
    let v1 = GameView { last_move_time: Some(now), ..v };
    lemma_give_top_conserves(v1, cur(v));
    lemma_settled_conserves(give_top(v1, cur(v)), now, 1);
}

/// An accepted penalty request keeps every card in play.
pub proof fn conservation_kept_by_penalty(v: GameView, who: Identity, now: i64)
    requires
        penalty_error(v, who) is None,
    ensures
        cards_in_play(penalized(v, now)) == cards_in_play(v),
{
    let v1 = GameView { last_move_time: Some(now), ..v };
    lemma_settled_conserves(v1, now, 1);
    if elapsed(v, now) > v.wait_time && pile_of(v1).len() > 0 {
        lemma_give_top_conserves(v1, cur(v));
        lemma_settled_conserves(give_top(v1, cur(v)), now, 1);
    }
}

proof fn lemma_take_card_conserves(v: GameView, card: Card)
    requires
        running(v),
        hand_of(v, cur(v)).contains(card),
    ensures
        hands_total(with_hand(v, cur(v), remove_one(hand_of(v, cur(v)), card)).players).insert(card)
            == hands_total(v.players),
{
    broadcast use vstd::seq_lib::group_to_multiset_ensures;
    broadcast use vstd::multiset::group_multiset_axioms;

    let i = cur(v);
    let h = hand_of(v, i);
    lemma_first_index(h, card);
    let h2 = remove_one(h, card);
    assert(h2.to_multiset() == h.to_multiset().remove(card));
    let np = PlayerView { hand: Some(h2), ..v.players[i] };
    assert(with_hand(v, i, h2).players == v.players.update(i, np));
    lemma_hands_update(v.players, i, np);
    assert(cards_of(np) == h2);
    assert(cards_of(v.players[i]) == h);
    assert(h.to_multiset().count(card) > 0);
    let hn = hands_total(with_hand(v, i, h2).players);
    let ho = hands_total(v.players);
    let hm = h.to_multiset();
    let nm = h2.to_multiset();
    assert(hn.add(hm) == ho.add(nm));
    assert(hn.insert(card) =~= ho) by {
        assert forall|x: Card| #[trigger] hn.insert(card).count(x) == ho.count(x) by {
            assert(hn.add(hm).count(x) == ho.add(nm).count(x));
        }
    }
}

/// An accepted play keeps every card in play but the call card it covers:
/// the cards in play afterwards, with that old call card, are the cards in
/// play before.
pub proof fn conservation_kept_by_play(v: GameView, who: Identity, card: Card, now: i64)
    requires
        play_error(v, who, card) is None,
    ensures
        cards_in_play(played(v, card, now)).insert(v.call_card->Some_0) == cards_in_play(v),
{
    broadcast use vstd::multiset::group_multiset_axioms;

    let i = cur(v);
    let h2 = remove_one(hand_of(v, i), card);
    let v0 = with_hand(v, i, h2);
    lemma_take_card_conserves(v, card);
    lemma_with_hand_running(v, i, h2);
    let v1 = GameView { call_card: Some(card), last_move_time: Some(now), ..v0 };
    assert(running(v1));
    lemma_effect_conserves(v1, card.card_number, now);
    assert(pile_of(v1) == pile_of(v));
    assert(cards_in_play(v1).insert(v.call_card->Some_0) =~= cards_in_play(v));
}

} // verus!
