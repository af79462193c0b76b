//! The Hanabi game itself: setting it up, applying one move, and producing
//! the per-player view with hidden information removed.

use vstd::prelude::*;
use crate::cards::{
    card_matches, count_full, hint_applied, hinted_indices, is_fresh_knowledge, seq_usize_sum,
    spec_deck_size, Card, CardIdx, CardKnowledge, CardWithKnowledge, Color, Deck, GameVariant,
    Hand, Hint, Played, Turn, MAX_VALUE,
};

verus! {

/// A zero-based player index; players are shown one-based to humans.
pub type Player = usize;

pub const MAX_HINTS: usize = 8;

pub const MAX_LIVES: usize = 3;

/// Whose turn it is, or how the game ended: all piles full (`Won`), all
/// lives lost (`Died`), or the deck exhausted and the last round played
/// (`Ended`).
#[derive(Debug, Clone, Copy, PartialEq, Eq, Structural)]
pub enum GameState {
    NextPlayer(Player),
    Won,
    Died,
    Ended,
}

impl GameState {
    pub fn has_ended(&self) -> (r: bool)
        ensures
            r == !(self is NextPlayer),
    {
        match self {
            GameState::NextPlayer(_) => false,
            _ => true,
        }
    }
}

/// One move a player can make.
#[derive(Debug, Clone, Copy, PartialEq, Eq, Structural)]
pub enum Move {
    Play { card_idx: CardIdx },
    Discard { card_idx: CardIdx },
    Hint { hinted_player: Player, hint: Hint },
    /// In a two-player game the hinted player goes without saying.
    HintOtherPlayer { hint: Hint },
}

/// What one move did, as kept in the game's log.
#[derive(Debug, Clone, PartialEq, Eq)]
pub enum MoveLog {
    Play { card_idx: CardIdx, card: Card, know: CardKnowledge, success: bool },
    Discard { card_idx: CardIdx, card: Card, know: CardKnowledge },
    Hint { hinted_player: Player, hint: Hint, card_indices: Vec<CardIdx> },
}

/// A log entry: who moved, and what the move did.
#[derive(Debug, Clone, PartialEq, Eq)]
pub struct PlayerMoveLog {
    pub player: Player,
    pub mov: MoveLog,
}

/// Two log entries that say the same, compared down to the contents of the
/// hinted-positions list.
pub open spec fn log_entry_equiv(a: PlayerMoveLog, b: PlayerMoveLog) -> bool {
    a.player == b.player && match (a.mov, b.mov) {
        (MoveLog::Hint { hinted_player: p1, hint: h1, card_indices: v1 },
            MoveLog::Hint { hinted_player: p2, hint: h2, card_indices: v2 },
        ) => p1 == p2 && h1 == h2 && v1@ == v2@,
        (MoveLog::Hint { .. }, _) => false,
        (_, MoveLog::Hint { .. }) => false,
        _ => a.mov == b.mov,
    }
}

/// The total number of cards held in a row of hands.
pub open spec fn hands_card_total(hands: Seq<Hand>) -> int
    decreases hands.len(),
{
    if hands.len() == 0 {
        0
    } else {
        hands_card_total(hands.drop_last()) + hands.last().spec_len()
    }
}

pub proof fn lemma_hands_card_total_nonneg(hands: Seq<Hand>)
    ensures
        hands_card_total(hands) >= 0,
    decreases hands.len(),
{
    if hands.len() > 0 {
        lemma_hands_card_total_nonneg(hands.drop_last());
    }
}

pub proof fn lemma_hands_card_total_update(hands: Seq<Hand>, i: int, h: Hand)
    requires
        0 <= i < hands.len(),
    ensures
        hands_card_total(hands.update(i, h)) == hands_card_total(hands) - hands[i].spec_len()
            + h.spec_len(),
    decreases hands.len(),
{
    if i == hands.len() - 1 {
        assert(hands.update(i, h).drop_last() =~= hands.drop_last());
    } else {
        assert(hands.update(i, h).drop_last() =~= hands.drop_last().update(i, h));
        lemma_hands_card_total_update(hands.drop_last(), i, h);
    }
}

pub proof fn lemma_seq_usize_sum_nonneg(s: Seq<usize>)
    ensures
        seq_usize_sum(s) >= 0,
    decreases s.len(),
{
    if s.len() > 0 {
        lemma_seq_usize_sum_nonneg(s.drop_last());
    }
}

pub proof fn lemma_seq_usize_sum_update(s: Seq<usize>, i: int, v: usize)
    requires
        0 <= i < s.len(),
    ensures
        seq_usize_sum(s.update(i, v)) == seq_usize_sum(s) - s[i] + v,
    decreases s.len(),
{
    if i == s.len() - 1 {
        assert(s.update(i, v).drop_last() =~= s.drop_last());
    } else {
        assert(s.update(i, v).drop_last() =~= s.drop_last().update(i, v));
        lemma_seq_usize_sum_update(s.drop_last(), i, v);
    }
}

pub proof fn lemma_count_full_bounds(s: Seq<usize>)
    ensures
        0 <= count_full(s) <= s.len(),
    decreases s.len(),
{
    if s.len() > 0 {
        lemma_count_full_bounds(s.drop_last());
    }
}

pub proof fn lemma_count_full_update(s: Seq<usize>, i: int, v: usize)
    requires
        0 <= i < s.len(),
    ensures
        count_full(s.update(i, v)) == count_full(s) - (if s[i] == MAX_VALUE {
            1int
        } else {
            0int
        }) + (if v == MAX_VALUE {
            1int
        } else {
            0int
        }),
    decreases s.len(),
{
    if i == s.len() - 1 {
        assert(s.update(i, v).drop_last() =~= s.drop_last());
    } else {
        assert(s.update(i, v).drop_last() =~= s.drop_last().update(i, v));
        lemma_count_full_update(s.drop_last(), i, v);
    }
}

/// One running or finished Hanabi game.
#[derive(Debug)]
pub struct Game {
    players: Vec<String>,
    start_player: Player,
    game_state: GameState,
    /// Set to the player drawing the last card; everyone up to and
    /// including that player gets one final turn.
    last_player: Option<Player>,
    cards_per_player: usize,
    hints: usize,
    lives: usize,
    variant: GameVariant,
    deck: Deck,
    hands: Vec<Hand>,
    discarded: Vec<Card>,
    played: Played,
    move_log: Vec<PlayerMoveLog>,
}

impl Game {
    pub closed spec fn spec_players(&self) -> Seq<String> {
        self.players@
    }

    pub closed spec fn spec_start_player(&self) -> Player {
        self.start_player
    }

    pub closed spec fn spec_state(&self) -> GameState {
        self.game_state
    }

    pub closed spec fn spec_last_player(&self) -> Option<Player> {
        self.last_player
    }

    pub closed spec fn spec_cards_per_player(&self) -> int {
        self.cards_per_player as int
    }

    pub closed spec fn spec_hints(&self) -> int {
        self.hints as int
    }

    pub closed spec fn spec_lives(&self) -> int {
        self.lives as int
    }

    pub closed spec fn spec_variant(&self) -> GameVariant {
        self.variant
    }

    pub closed spec fn spec_deck(&self) -> Deck {
        self.deck
    }

    pub closed spec fn spec_hands(&self) -> Seq<Hand> {
        self.hands@
    }

    pub closed spec fn spec_discarded(&self) -> Seq<Card> {
        self.discarded@
    }

    pub closed spec fn spec_played(&self) -> Seq<usize> {
        self.played.0@
    }

    pub closed spec fn spec_log(&self) -> Seq<PlayerMoveLog> {
        self.move_log@
    }

    /// No card is lost or invented: every card of the full deck is in
    /// exactly one of the deck, a hand, the discard pile, or — counted by
    /// pile heights — the fireworks.
    pub open spec fn conserved(&self) -> bool {
        self.spec_deck().spec_len() + hands_card_total(self.spec_hands())
            + self.spec_discarded().len() + seq_usize_sum(self.spec_played()) == spec_deck_size(
            self.spec_variant(),
        )
    }

    /// The invariant of every game the server holds: visible everywhere,
    /// sound indices, bounded counters, conserved cards.
    pub open spec fn wf(&self) -> bool {
        &&& 2 <= self.spec_players().len() <= 5
        &&& self.spec_start_player() < self.spec_players().len()
        &&& (self.spec_state() matches GameState::NextPlayer(p) ==> p < self.spec_players().len()
            && self.spec_lives() >= 1)
        &&& (self.spec_last_player() matches Some(p) ==> p < self.spec_players().len())
        &&& self.spec_cards_per_player() == (if self.spec_players().len() <= 3 {
            5int
        } else {
            4int
        })
        &&& self.spec_lives() <= MAX_LIVES
        &&& self.spec_hints() <= MAX_HINTS + count_full(self.spec_played())
            + self.spec_discarded().len()
        &&& self.spec_deck() is Visible
        &&& self.spec_deck().all_valid(self.spec_variant())
        &&& self.spec_hands().len() == self.spec_players().len()
        &&& forall|i: int|
            0 <= i < self.spec_hands().len() ==> (#[trigger] self.spec_hands()[i]) is Visible
        &&& forall|i: int, j: int|
            0 <= i < self.spec_hands().len() && 0 <= j < self.spec_hands()[i].spec_cards().len()
                ==> (#[trigger] self.spec_hands()[i].spec_cards()[j]).0.valid(self.spec_variant())
        &&& forall|i: int|
            0 <= i < self.spec_discarded().len() ==> (#[trigger] self.spec_discarded()[i]).valid(
                self.spec_variant(),
            )
        &&& self.spec_played().len() == self.spec_variant().spec_num_colors()
        &&& forall|i: int|
            0 <= i < self.spec_played().len() ==> #[trigger] self.spec_played()[i] <= MAX_VALUE
        &&& self.conserved()
    }

    /// Set up a fresh game: seat the players in a random order, shuffle the
    /// deck, deal the opening hands, and pick who starts.  Hanabi is played
    /// by two to five players; any other count is refused.
    pub fn new(players: Vec<String>, variant: GameVariant) -> (r: Result<Game, &'static str>)
        ensures
            (r is Ok) <==> 2 <= players@.len() <= 5,
            r matches Err(m) ==> m@ == "Hanabi needs 2 to 5 players."@,
            r matches Ok(g) ==> g.wf(),
            r matches Ok(g) ==> g.spec_variant() == variant,
            r matches Ok(g) ==> g.spec_players().len() == players@.len()
                && g.spec_players().to_multiset() == players@.to_multiset(),
            r matches Ok(g) ==> (g.spec_state() is NextPlayer),
            r matches Ok(g) ==> g.spec_hints() == MAX_HINTS && g.spec_lives() == MAX_LIVES
                && g.spec_log().len() == 0 && g.spec_discarded().len() == 0 && (
            g.spec_last_player() is None),
            r matches Ok(g) ==> forall|i: int|
                0 <= i < g.spec_played().len() ==> #[trigger] g.spec_played()[i] == 0,
            r matches Ok(g) ==> forall|i: int|
                0 <= i < g.spec_hands().len() ==> (#[trigger] g.spec_hands()[i]).spec_len()
                    == g.spec_cards_per_player(),
            r matches Ok(g) ==> forall|i: int, j: int|
                0 <= i < g.spec_hands().len() && 0 <= j < g.spec_hands()[i].spec_cards().len()
                    ==> is_fresh_knowledge(
                    (#[trigger] g.spec_hands()[i].spec_cards()[j]).1,
                    variant,
                    Turn::Start,
                ),
            r matches Ok(g) ==> g.spec_deck().spec_len() == spec_deck_size(variant) - players@.len()
                * g.spec_cards_per_player(),
    {
        if players.len() < 2 || players.len() > 5 {
            return Err("Hanabi needs 2 to 5 players.");
        }
        let mut players = players;
        crate::rng::shuffle_vec(&mut players);
        let num_players = players.len();
        let start_player = crate::rng::random_below(num_players);
        let cards_per_player: usize = if num_players <= 3 {
            5
        } else {
            4
        };
        let mut deck = Deck::new(variant);
        let ghost deck0 = deck.spec_cards();
        proof {
            if num_players <= 3 {
                assert(num_players * cards_per_player <= 15) by (nonlinear_arith)
                    requires
                        num_players <= 3,
                        cards_per_player == 5,
                ;
            } else {
                assert(num_players * cards_per_player <= 20) by (nonlinear_arith)
                    requires
                        num_players <= 5,
                        cards_per_player == 4,
                ;
            }
        }
        let mut hands: Vec<Hand> = Vec::new();
        let mut i: usize = 0;
        while i < num_players
            invariant
                i <= num_players,
                2 <= num_players <= 5,
                num_players == players@.len(),
                cards_per_player == (if num_players <= 3 {
                    5usize
                } else {
                    4usize
                }),
                num_players * cards_per_player <= 25,
                deck is Visible,
                deck0.len() == spec_deck_size(variant),
                deck0.len() >= 50,
                forall|k: int| 0 <= k < deck0.len() ==> (#[trigger] deck0[k]).valid(variant),
                deck.spec_cards() == deck0.take(deck0.len() - i * cards_per_player),
                hands@.len() == i,
                forall|j: int| 0 <= j < i ==> (#[trigger] hands@[j]) is Visible,
                forall|j: int|
                    0 <= j < i ==> (#[trigger] hands@[j]).spec_len() == cards_per_player,
                forall|j: int, k: int|
                    0 <= j < i && 0 <= k < hands@[j].spec_cards().len() ==> (
                    #[trigger] hands@[j].spec_cards()[k]).0.valid(variant),
                forall|j: int, k: int|
                    0 <= j < i && 0 <= k < hands@[j].spec_cards().len() ==> is_fresh_knowledge(
                        (#[trigger] hands@[j].spec_cards()[k]).1,
                        variant,
                        Turn::Start,
                    ),
                hands_card_total(hands@) == i * cards_per_player,
            decreases num_players - i,
        {
            proof {
                assert((i + 1) * cards_per_player <= num_players * cards_per_player)
                    by (nonlinear_arith)
                    requires
                        i < num_players,
                        cards_per_player >= 0,
                ;
                assert(i * cards_per_player + cards_per_player == (i + 1) * cards_per_player)
                    by (nonlinear_arith);
            }
            let ghost predeck = deck.spec_cards();
            let h = Hand::new(variant, cards_per_player, &mut deck);
            proof {
                assert(deck.spec_cards() =~= deck0.take(
                    deck0.len() - (i + 1) * cards_per_player,
                ));
                assert(hands@.push(h).drop_last() =~= hands@);
                assert forall|k: int| 0 <= k < h.spec_cards().len() implies (#[trigger] h
                    .spec_cards()[k]).0.valid(variant) by {
                    assert(h.spec_cards()[k].0 == predeck[predeck.len() - 1 - k]);
                }
            }
            hands.push(h);
            i = i + 1;
        }
        let played = Played::new(variant);
        let game = Game {
            players,
            start_player,
            game_state: GameState::NextPlayer(start_player),
            last_player: None,
            cards_per_player,
            hints: MAX_HINTS,
            lives: MAX_LIVES,
            variant,
            deck,
            hands,
            discarded: Vec::new(),
            played,
            move_log: Vec::new(),
        };
        Ok(game)
    }

    /// The seat of the player with the given name, if the name is seated.
    pub fn player_id(&self, player: &String) -> (r: Option<Player>)
        ensures
            r matches Some(i) ==> 0 <= i < self.spec_players().len()
                && self.spec_players()[i as int]@ == player@ && forall|j: int|
                0 <= j < i ==> self.spec_players()[j]@ != player@,
            r is None ==> forall|j: int|
                0 <= j < self.spec_players().len() ==> self.spec_players()[j]@ != player@,
    {
        let mut i: usize = 0;
        while i < self.players.len()
            invariant
                i <= self.players@.len(),
                forall|j: int| 0 <= j < i ==> self.spec_players()[j]@ != player@,
            decreases self.players@.len() - i,
        {
            if self.players[i] == *player {
                return Some(i);
            }
            i = i + 1;
        }
        None
    }

    pub fn game_state(&self) -> (r: GameState)
        ensures
            r == self.spec_state(),
    {
        self.game_state
    }

    pub fn has_ended(&self) -> (r: bool)
        ensures
            r == !(self.spec_state() is NextPlayer),
    {
        self.game_state.has_ended()
    }

    pub fn players(&self) -> (r: &Vec<String>)
        ensures
            r@ == self.spec_players(),
    {
        &self.players
    }

    pub fn variant(&self) -> (r: GameVariant)
        ensures
            r == self.spec_variant(),
    {
        self.variant
    }

    pub fn hints(&self) -> (r: usize)
        ensures
            r == self.spec_hints(),
    {
        self.hints
    }

    pub fn lives(&self) -> (r: usize)
        ensures
            r == self.spec_lives(),
    {
        self.lives
    }

    /// The score so far: the piles' total height.
    pub fn score(&self) -> (r: usize)
        requires
            self.wf(),
        ensures
            r == seq_usize_sum(self.spec_played()),
    {
        self.played.score()
    }

    pub fn deck(&self) -> (r: &Deck)
        ensures
            *r == self.spec_deck(),
    {
        &self.deck
    }

    pub fn hands(&self) -> (r: &Vec<Hand>)
        ensures
            r@ == self.spec_hands(),
    {
        &self.hands
    }

    pub fn discarded(&self) -> (r: &Vec<Card>)
        ensures
            r@ == self.spec_discarded(),
    {
        &self.discarded
    }

    pub fn played(&self) -> (r: &Played)
        ensures
            r.0@ == self.spec_played(),
    {
        &self.played
    }

    pub fn move_log(&self) -> (r: &Vec<PlayerMoveLog>)
        ensures
            r@ == self.spec_log(),
    {
        &self.move_log
    }
}

/// The player to move after `player`, round-robin among `n` seats.
pub open spec fn next_of(player: Player, n: int) -> Player {
    (((player + 1) as int) % n) as usize
}

/// The message a hint move is refused with, if it is refused.
pub open spec fn hint_err_msg(g: Game, player: Player, hp: Player, hint: Hint) -> Option<
    Seq<char>,
> {
    if g.spec_hints() == 0 {
        Some("No hints remaining; hinting not allowed."@)
    } else if hp == player {
        Some("Hinting yourself is not allowed."@)
    } else if hp >= g.spec_players().len() {
        Some("Player out of range"@)
    } else {
        match hint {
            Hint::ValueHint(v) => if !(1 <= v <= MAX_VALUE) {
                Some("Hinted value is out of range."@)
            } else {
                None
            },
            Hint::ColorHint(c) => if c == Color::Multi {
                Some("Hinting multi is not allowed."@)
            } else {
                None
            },
        }
    }
}

/// The message a move is refused with, if it is refused; `None` means the
/// move goes through.
pub open spec fn move_err_msg(g: Game, player: Player, mov: Move) -> Option<Seq<char>> {
    if !(g.spec_state() is NextPlayer) {
        Some("Game has ended."@)
    } else if g.spec_state() != GameState::NextPlayer(player) {
        Some("Not this player's turn."@)
    } else {
        match mov {
            Move::Play { card_idx } => if !(1 <= card_idx.0 <= g.spec_hands()[
                player as int
            ].spec_len()) {
                Some("Card index out of range."@)
            } else {
                None
            },
            Move::Discard { card_idx } => if g.spec_hints() == MAX_HINTS {
                Some("Already at max hints; discarding not allowed."@)
            } else if !(1 <= card_idx.0 <= g.spec_hands()[player as int].spec_len()) {
                Some("Card index out of range."@)
            } else {
                None
            },
            Move::Hint { hinted_player, hint } => hint_err_msg(g, player, hinted_player, hint),
            Move::HintOtherPlayer { hint } => if g.spec_players().len() != 2 {
                Some("Specify the player to hint"@)
            } else {
                hint_err_msg(g, player, next_of(player, 2), hint)
            },
        }
    }
}

/// The seats, settings and variant never change once the game has begun.
pub open spec fn same_seats(pre: Game, post: Game) -> bool {
    &&& post.spec_players() == pre.spec_players()
    &&& post.spec_start_player() == pre.spec_start_player()
    &&& post.spec_variant() == pre.spec_variant()
    &&& post.spec_cards_per_player() == pre.spec_cards_per_player()
}

/// How every move ends: the game dies with the last life, is won at full
/// score, ends when the player who drew the last card has moved, and
/// otherwise passes to the next seat.  The player drawing the last card is
/// recorded once the deck runs out.
pub open spec fn end_rule(pre: Game, post: Game, player: Player) -> bool {
    let n = pre.spec_players().len() as int;
    &&& post.spec_state() == (if post.spec_lives() == 0 {
        GameState::Died
    } else if seq_usize_sum(post.spec_played()) == 5 * post.spec_variant().spec_num_colors() {
        GameState::Won
    } else if pre.spec_last_player() == Some(player) {
        GameState::Ended
    } else {
        GameState::NextPlayer(next_of(player, n))
    })
    &&& post.spec_last_player() == (if post.spec_deck().spec_len() == 0 && (
    pre.spec_last_player() is None) {
        Some(player)
    } else {
        pre.spec_last_player()
    })
}

/// Drawing a replacement card: the top of the deck moves into the hand with
/// fresh knowledge; with the deck empty, nothing happens.
pub open spec fn draw_effect(
    predeck: Deck,
    prehand: Seq<CardWithKnowledge>,
    postdeck: Deck,
    posthand: Seq<CardWithKnowledge>,
    variant: GameVariant,
) -> bool {
    if predeck.spec_len() == 0 {
        postdeck.spec_cards() == predeck.spec_cards() && posthand == prehand
    } else {
        &&& postdeck.spec_cards() == predeck.spec_cards().drop_last()
        &&& posthand.len() == prehand.len() + 1
        &&& posthand.take(prehand.len() as int) == prehand
        &&& posthand.last().0 == predeck.spec_cards().last()
        &&& is_fresh_knowledge(posthand.last().1, variant, Turn::Start)
    }
}

/// What playing the card at `card_idx` does.
pub open spec fn play_effect(pre: Game, post: Game, player: Player, card_idx: CardIdx) -> bool {
    let hand = pre.spec_hands()[player as int].spec_cards();
    let i = card_idx.0 - 1;
    let cwk = hand[i as int];
    let removed = hand.remove(i as int);
    let colidx = cwk.0.c.spec_index();
    let success = cwk.0.v == pre.spec_played()[colidx] + 1;
    &&& same_seats(pre, post)
    &&& post.spec_hands().len() == pre.spec_hands().len()
    &&& forall|j: int|
        0 <= j < pre.spec_hands().len() && j != player ==> post.spec_hands()[j]
            == pre.spec_hands()[j]
    &&& (post.spec_hands()[player as int] is Visible)
    &&& (post.spec_deck() is Visible)
    &&& draw_effect(
        pre.spec_deck(),
        removed,
        post.spec_deck(),
        post.spec_hands()[player as int].spec_cards(),
        pre.spec_variant(),
    )
    &&& (if success {
        &&& post.spec_played() == pre.spec_played().update(colidx, cwk.0.v)
        &&& post.spec_discarded() == pre.spec_discarded()
        &&& post.spec_lives() == pre.spec_lives()
        &&& post.spec_hints() == (if cwk.0.v == MAX_VALUE {
            pre.spec_hints() + 1
        } else {
            pre.spec_hints()
        })
    } else {
        &&& post.spec_played() == pre.spec_played()
        &&& post.spec_discarded() == pre.spec_discarded().push(cwk.0)
        &&& post.spec_lives() == pre.spec_lives() - 1
        &&& post.spec_hints() == pre.spec_hints()
    })
    &&& post.spec_log() == pre.spec_log().push(
        PlayerMoveLog {
            player,
            mov: MoveLog::Play { card_idx, card: cwk.0, know: cwk.1, success },
        },
    )
    &&& end_rule(pre, post, player)
}

/// What discarding the card at `card_idx` does.
pub open spec fn discard_effect(pre: Game, post: Game, player: Player, card_idx: CardIdx) -> bool {
    let hand = pre.spec_hands()[player as int].spec_cards();
    let i = card_idx.0 - 1;
    let cwk = hand[i as int];
    let removed = hand.remove(i as int);
    &&& same_seats(pre, post)
    &&& post.spec_hands().len() == pre.spec_hands().len()
    &&& forall|j: int|
        0 <= j < pre.spec_hands().len() && j != player ==> post.spec_hands()[j]
            == pre.spec_hands()[j]
    &&& (post.spec_hands()[player as int] is Visible)
    &&& (post.spec_deck() is Visible)
    &&& draw_effect(
        pre.spec_deck(),
        removed,
        post.spec_deck(),
        post.spec_hands()[player as int].spec_cards(),
        pre.spec_variant(),
    )
    &&& post.spec_played() == pre.spec_played()
    &&& post.spec_discarded() == pre.spec_discarded().push(cwk.0)
    &&& post.spec_lives() == pre.spec_lives()
    &&& post.spec_hints() == pre.spec_hints() + 1
    &&& post.spec_log() == pre.spec_log().push(
        PlayerMoveLog { player, mov: MoveLog::Discard { card_idx, card: cwk.0, know: cwk.1 } },
    )
    &&& end_rule(pre, post, player)
}

/// What hinting player `hp` does: only that player's knowledge and the hint
/// counter change, and the hinted positions are logged.
pub open spec fn hint_effect(pre: Game, post: Game, player: Player, hp: Player, hint: Hint) -> bool {
    let hand = pre.spec_hands()[hp as int].spec_cards();
    &&& same_seats(pre, post)
    &&& post.spec_hands().len() == pre.spec_hands().len()
    &&& forall|j: int|
        0 <= j < pre.spec_hands().len() && j != hp ==> post.spec_hands()[j] == pre.spec_hands()[j]
    &&& (post.spec_hands()[hp as int] is Visible)
    &&& post.spec_hands()[hp as int].spec_cards().len() == hand.len()
    &&& forall|i: int|
        0 <= i < hand.len() ==> hint_applied(
            #[trigger] hand[i],
            post.spec_hands()[hp as int].spec_cards()[i],
            hint,
        )
    &&& post.spec_deck() == pre.spec_deck()
    &&& post.spec_played() == pre.spec_played()
    &&& post.spec_discarded() == pre.spec_discarded()
    &&& post.spec_lives() == pre.spec_lives()
    &&& post.spec_hints() == pre.spec_hints() - 1
    &&& post.spec_log().len() == pre.spec_log().len() + 1
    &&& post.spec_log().take(pre.spec_log().len() as int) == pre.spec_log()
    &&& post.spec_log().last().player == player
    &&& (post.spec_log().last().mov matches MoveLog::Hint {
        hinted_player: p2,
        hint: h2,
        card_indices: v2,
    } && p2 == hp && h2 == hint && v2@ == hinted_indices(hand, hint))
    &&& end_rule(pre, post, player)
}

/// What an accepted move does, by its kind.
pub open spec fn move_effect(pre: Game, post: Game, player: Player, mov: Move) -> bool {
    match mov {
        Move::Play { card_idx } => play_effect(pre, post, player, card_idx),
        Move::Discard { card_idx } => discard_effect(pre, post, player, card_idx),
        Move::Hint { hinted_player, hint } => hint_effect(pre, post, player, hinted_player, hint),
        Move::HintOtherPlayer { hint } => hint_effect(pre, post, player, next_of(player, 2), hint),
    }
}

/// Two hands that show the same: visible with the same cards and
/// knowledge, or hidden with the same knowledge.
pub open spec fn hand_equiv(a: Hand, b: Hand) -> bool {
    match (a, b) {
        (Hand::Visible(_), Hand::Visible(_)) => a.spec_cards() == b.spec_cards(),
        (Hand::Hidden(_), Hand::Hidden(_)) => a.spec_knows() == b.spec_knows(),
        _ => false,
    }
}

/// Two decks that show the same: visible with the same cards, or hidden
/// with the same count.
pub open spec fn deck_equiv(a: Deck, b: Deck) -> bool {
    match (a, b) {
        (Deck::Visible(_), Deck::Visible(_)) => a.spec_cards() == b.spec_cards(),
        (Deck::Hidden(_), Deck::Hidden(_)) => a.spec_len() == b.spec_len(),
        _ => false,
    }
}

/// Everything `b` says, `a` says too, down to the vectors' contents.
pub open spec fn game_equiv(a: Game, b: Game) -> bool {
    &&& b.spec_players() == a.spec_players()
    &&& b.spec_start_player() == a.spec_start_player()
    &&& b.spec_state() == a.spec_state()
    &&& b.spec_last_player() == a.spec_last_player()
    &&& b.spec_cards_per_player() == a.spec_cards_per_player()
    &&& b.spec_hints() == a.spec_hints()
    &&& b.spec_lives() == a.spec_lives()
    &&& b.spec_variant() == a.spec_variant()
    &&& deck_equiv(a.spec_deck(), b.spec_deck())
    &&& b.spec_hands().len() == a.spec_hands().len()
    &&& forall|i: int|
        0 <= i < a.spec_hands().len() ==> hand_equiv(
            #[trigger] a.spec_hands()[i],
            b.spec_hands()[i],
        )
    &&& b.spec_discarded() == a.spec_discarded()
    &&& b.spec_played() == a.spec_played()
    &&& b.spec_log().len() == a.spec_log().len()
    &&& forall|i: int|
        0 <= i < a.spec_log().len() ==> log_entry_equiv(
            #[trigger] a.spec_log()[i],
            b.spec_log()[i],
        )
}

/// `v` is the game `g` as seat `player` may see it: the same game, except
/// that the deck shows only its count and the seat's own cards show only
/// their knowledge.
pub open spec fn is_view_of(v: Game, g: Game, player: int) -> bool {
    &&& v.spec_players() == g.spec_players()
    &&& v.spec_start_player() == g.spec_start_player()
    &&& v.spec_state() == g.spec_state()
    &&& v.spec_last_player() == g.spec_last_player()
    &&& v.spec_cards_per_player() == g.spec_cards_per_player()
    &&& v.spec_hints() == g.spec_hints()
    &&& v.spec_lives() == g.spec_lives()
    &&& v.spec_variant() == g.spec_variant()
    &&& (v.spec_deck() is Hidden)
    &&& v.spec_deck().spec_len() == g.spec_deck().spec_len()
    &&& v.spec_hands().len() == g.spec_hands().len()
    &&& forall|j: int|
        0 <= j < g.spec_hands().len() && j != player ==> hand_equiv(
            #[trigger] g.spec_hands()[j],
            v.spec_hands()[j],
        )
    &&& (v.spec_hands()[player] is Hidden)
    &&& v.spec_hands()[player].spec_knows() == g.spec_hands()[player].spec_cards().map_values(
        |cwk: CardWithKnowledge| cwk.1,
    )
    &&& v.spec_discarded() == g.spec_discarded()
    &&& v.spec_played() == g.spec_played()
    &&& v.spec_log().len() == g.spec_log().len()
    &&& forall|i: int|
        0 <= i < g.spec_log().len() ==> log_entry_equiv(
            #[trigger] g.spec_log()[i],
            v.spec_log()[i],
        )
}

/// `i` is the first seat whose name reads `name`.
pub open spec fn first_match(players: Seq<String>, name: Seq<char>, i: int) -> bool {
    &&& 0 <= i < players.len()
    &&& players[i]@ == name
    &&& forall|j: int| 0 <= j < i ==> players[j]@ != name
}

/// There is at most one first seat with a given name.
pub proof fn lemma_first_match_unique(players: Seq<String>, name: Seq<char>, i1: int, i2: int)
    requires
        first_match(players, name, i1),
        first_match(players, name, i2),
    ensures
        i1 == i2,
{
}

/// What a view computed for the named user shows: the seat's redacted view
/// for a seated user, the game as it stands for anyone else.
pub open spec fn user_view_ok(g: Game, name: Seq<char>, r: Game) -> bool {
    if exists|j: int| 0 <= j < g.spec_players().len() && g.spec_players()[j]@ == name {
        exists|i: int| #[trigger] first_match(g.spec_players(), name, i) && is_view_of(r, g, i)
    } else {
        game_equiv(g, r)
    }
}

/// Whoever else is being served, the view for seat `a` never carries seat
/// `a`'s own card identities or the deck's cards, while a view for another
/// seat `b` may show seat `a`'s cards: redaction is per recipient.
pub proof fn lemma_views_independent(g: Game, va: Game, vb: Game, a: int, b: int)
    requires
        g.wf(),
        0 <= a < g.spec_hands().len(),
        0 <= b < g.spec_hands().len(),
        a != b,
        is_view_of(va, g, a),
        is_view_of(vb, g, b),
    ensures
        va.spec_hands()[a] is Hidden,
        va.spec_deck() is Hidden,
        vb.spec_hands()[a] is Visible,
        va.spec_hands()[b] is Visible,
        vb.spec_hands()[b] is Hidden,
        va.spec_hands()[a].spec_knows() == g.spec_hands()[a].spec_cards().map_values(
            |cwk: CardWithKnowledge| cwk.1,
        ),
{
    assert(hand_equiv(g.spec_hands()[a], vb.spec_hands()[a]));
    assert(hand_equiv(g.spec_hands()[b], va.spec_hands()[b]));
}

/// Two log entries that both say the same as a third say the same as each
/// other.
proof fn lemma_log_entry_equiv_join(g: PlayerMoveLog, a: PlayerMoveLog, b: PlayerMoveLog)
    requires
        log_entry_equiv(g, a),
        log_entry_equiv(g, b),
    ensures
        log_entry_equiv(a, b),
{
}

/// Two full copies of the same game show the same thing.
pub proof fn lemma_game_equiv_agree(g: Game, a: Game, b: Game)
    requires
        forall|j: int|
            0 <= j < g.spec_hands().len() ==> (#[trigger] g.spec_hands()[j]) is Visible,
        game_equiv(g, a),
        game_equiv(g, b),
    ensures
        game_equiv(a, b),
{
    assert forall|j: int|
        0 <= j < a.spec_hands().len() implies hand_equiv(
        #[trigger] a.spec_hands()[j],
        b.spec_hands()[j],
    ) by {
        assert(hand_equiv(g.spec_hands()[j], a.spec_hands()[j]));
        assert(hand_equiv(g.spec_hands()[j], b.spec_hands()[j]));
    }
    assert forall|i: int|
        0 <= i < a.spec_log().len() implies log_entry_equiv(
        #[trigger] a.spec_log()[i],
        b.spec_log()[i],
    ) by {
        assert(log_entry_equiv(g.spec_log()[i], a.spec_log()[i]));
        assert(log_entry_equiv(g.spec_log()[i], b.spec_log()[i]));
        lemma_log_entry_equiv_join(g.spec_log()[i], a.spec_log()[i], b.spec_log()[i]);
    }
}

/// Two views of the same game for the same seat show the same thing.
pub proof fn lemma_view_of_agree(g: Game, i: int, a: Game, b: Game)
    requires
        0 <= i < g.spec_hands().len(),
        forall|j: int|
            0 <= j < g.spec_hands().len() ==> (#[trigger] g.spec_hands()[j]) is Visible,
        is_view_of(a, g, i),
        is_view_of(b, g, i),
    ensures
        game_equiv(a, b),
{
    assert forall|j: int|
        0 <= j < a.spec_hands().len() implies hand_equiv(
        #[trigger] a.spec_hands()[j],
        b.spec_hands()[j],
    ) by {
        if j != i {
            assert(hand_equiv(g.spec_hands()[j], a.spec_hands()[j]));
            assert(hand_equiv(g.spec_hands()[j], b.spec_hands()[j]));
        }
    }
    assert forall|k: int|
        0 <= k < a.spec_log().len() implies log_entry_equiv(
        #[trigger] a.spec_log()[k],
        b.spec_log()[k],
    ) by {
        assert(log_entry_equiv(g.spec_log()[k], a.spec_log()[k]));
        assert(log_entry_equiv(g.spec_log()[k], b.spec_log()[k]));
        lemma_log_entry_equiv_join(g.spec_log()[k], a.spec_log()[k], b.spec_log()[k]);
    }
}

/// Two views computed for the same user over the same game show the same
/// thing, whether the user is seated or watching.
pub proof fn lemma_user_view_agree(g: Game, name: Seq<char>, a: Game, b: Game)
    requires
        forall|j: int|
            0 <= j < g.spec_hands().len() ==> (#[trigger] g.spec_hands()[j]) is Visible,
        g.spec_hands().len() == g.spec_players().len(),
        user_view_ok(g, name, a),
        user_view_ok(g, name, b),
    ensures
        game_equiv(a, b),
{
    if exists|j: int| 0 <= j < g.spec_players().len() && g.spec_players()[j]@ == name {
        let i1 = choose|i: int| #[trigger] first_match(g.spec_players(), name, i) && is_view_of(a, g, i);
        let i2 = choose|i: int| #[trigger] first_match(g.spec_players(), name, i) && is_view_of(b, g, i);
        lemma_first_match_unique(g.spec_players(), name, i1, i2);
        lemma_view_of_agree(g, i1, a, b);
    } else {
        lemma_game_equiv_agree(g, a, b);
    }
}

/// Copy a vector of plain values, element for element.
pub(crate) fn copy_vec<T: Copy>(v: &Vec<T>) -> (r: Vec<T>)
    ensures
        r@ == v@,
{
    let mut r: Vec<T> = Vec::new();
    let mut i: usize = 0;
    while i < v.len()
        invariant
            i <= v@.len(),
            r@ == v@.take(i as int),
        decreases v@.len() - i,
    {
        r.push(v[i]);
        proof {
            assert(v@.take(i + 1).drop_last() =~= v@.take(i as int));
            assert(r@ =~= v@.take(i + 1));
        }
        i = i + 1;
    }
    proof {
        assert(v@.take(v@.len() as int) =~= v@);
    }
    r
}

/// Copy a vector of names; a cloned `String` reads the same, and is the
/// same name.
pub(crate) fn clone_strings(v: &Vec<String>) -> (r: Vec<String>)
    ensures
        r@ == v@,
{
    let mut r: Vec<String> = Vec::new();
    let mut i: usize = 0;
    while i < v.len()
        invariant
            i <= v@.len(),
            r@ == v@.take(i as int),
        decreases v@.len() - i,
    {
        r.push(v[i].clone());
        proof {
            assert(v@.take(i + 1).drop_last() =~= v@.take(i as int));
            assert(r@ =~= v@.take(i + 1));
        }
        i = i + 1;
    }
    proof {
        assert(v@.take(v@.len() as int) =~= v@);
    }
    r
}

/// Copy one hand, card for card.
fn clone_hand(h: &Hand) -> (r: Hand)
    requires
        h is Visible,
    ensures
        r is Visible,
        hand_equiv(*h, r),
{
    match h {
        Hand::Visible(cards) => Hand::Visible(copy_vec(cards)),
        Hand::Hidden(_) => {
            proof {
                assert(false);
            }
            Hand::Hidden(Vec::new())
        },
    }
}

/// Copy the move log, entry for entry.
fn clone_log(v: &Vec<PlayerMoveLog>) -> (r: Vec<PlayerMoveLog>)
    ensures
        r@.len() == v@.len(),
        forall|i: int| 0 <= i < v@.len() ==> log_entry_equiv(#[trigger] v@[i], r@[i]),
{
    let mut r: Vec<PlayerMoveLog> = Vec::new();
    let mut i: usize = 0;
    while i < v.len()
        invariant
            i <= v@.len(),
            r@.len() == i,
            forall|j: int| 0 <= j < i ==> log_entry_equiv(#[trigger] v@[j], r@[j]),
        decreases v@.len() - i,
    {
        let e = &v[i];
        let mov = match &e.mov {
            MoveLog::Play { card_idx, card, know, success } => MoveLog::Play {
                card_idx: *card_idx,
                card: *card,
                know: *know,
                success: *success,
            },
            MoveLog::Discard { card_idx, card, know } => MoveLog::Discard {
                card_idx: *card_idx,
                card: *card,
                know: *know,
            },
            MoveLog::Hint { hinted_player, hint, card_indices } => MoveLog::Hint {
                hinted_player: *hinted_player,
                hint: *hint,
                card_indices: copy_vec(card_indices),
            },
        };
        r.push(PlayerMoveLog { player: e.player, mov });
        i = i + 1;
    }
    r
}

impl Game {
    /// Work out how the turn ends, then record who drew the last card.
    fn finish_turn(&mut self, player: Player)
        requires
            2 <= old(self).spec_players().len() <= 5,
            player < old(self).spec_players().len(),
            old(self).spec_played().len() <= 6,
            forall|i: int|
                0 <= i < old(self).spec_played().len() ==> #[trigger] old(self).spec_played()[i]
                    <= MAX_VALUE,
        ensures
            final(self).spec_players() == old(self).spec_players(),
            final(self).spec_start_player() == old(self).spec_start_player(),
            final(self).spec_variant() == old(self).spec_variant(),
            final(self).spec_cards_per_player() == old(self).spec_cards_per_player(),
            final(self).spec_hints() == old(self).spec_hints(),
            final(self).spec_lives() == old(self).spec_lives(),
            final(self).spec_deck() == old(self).spec_deck(),
            final(self).spec_hands() == old(self).spec_hands(),
            final(self).spec_discarded() == old(self).spec_discarded(),
            final(self).spec_played() == old(self).spec_played(),
            final(self).spec_log() == old(self).spec_log(),
            end_rule(*old(self), *final(self), player),
    {
        let score = self.played.score();
        let maxs = self.variant.max_score();
        let is_last = match self.last_player {
            Some(p) => p == player,
            None => false,
        };
        self.game_state = if self.lives == 0 {
            GameState::Died
        } else if score == maxs {
            GameState::Won
        } else if is_last {
            GameState::Ended
        } else {
            GameState::NextPlayer((player + 1) % self.players.len())
        };
        if self.deck.is_empty() && self.last_player.is_none() {
            self.last_player = Some(player);
        }
    }

    /// The card and discard counters stay within machine range.
    proof fn lemma_counter_bounds(&self)
        requires
            self.wf(),
        ensures
            self.spec_discarded().len() <= spec_deck_size(self.spec_variant()),
            self.spec_hints() <= MAX_HINTS + 6 + spec_deck_size(self.spec_variant()),
    {
        lemma_hands_card_total_nonneg(self.spec_hands());
        lemma_seq_usize_sum_nonneg(self.spec_played());
        lemma_count_full_bounds(self.spec_played());
    }

    /// Play the card at `card_idx`: it either extends its pile or costs a
    /// life and lands on the discard pile; then a new card is drawn.
    fn do_play(&mut self, player: Player, card_idx: CardIdx)
        requires
            old(self).wf(),
            old(self).spec_state() == GameState::NextPlayer(player),
            1 <= card_idx.0 <= old(self).spec_hands()[player as int].spec_len(),
        ensures
            final(self).wf(),
            play_effect(*old(self), *final(self), player, card_idx),
    {
        proof {
            old(self).lemma_counter_bounds();
        }
        let ghost pre = *old(self);
        let cwk = match self.hands[player].take(card_idx) {
            Some(c) => c,
            None => {
                proof {
                    assert(false);
                }
                CardWithKnowledge(Card { c: Color::Blue, v: 1 }, CardKnowledge::new(
                    GameVariant::Base,
                    Turn::Start,
                ))
            },
        };
        proof {
            lemma_hands_card_total_update(
                pre.spec_hands(),
                player as int,
                self.spec_hands()[player as int],
            );
        }
        let success = match self.played.play(cwk.0) {
            Ok(card) => {
                if card.v == MAX_VALUE {
                    proof {
                        lemma_count_full_update(pre.spec_played(), card.c.spec_index(), card.v);
                    }
                    self.hints = self.hints + 1;
                } else {
                    proof {
                        lemma_count_full_update(pre.spec_played(), card.c.spec_index(), card.v);
                    }
                }
                proof {
                    lemma_seq_usize_sum_update(pre.spec_played(), cwk.0.c.spec_index(), cwk.0.v);
                }
                true
            },
            Err(card) => {
                self.discarded.push(card);
                self.lives = self.lives - 1;
                false
            },
        };
        let ghost mid = *self;
        self.hands[player].draw(self.variant, &mut self.deck);
        proof {
            lemma_hands_card_total_update(
                mid.spec_hands(),
                player as int,
                self.spec_hands()[player as int],
            );
        }
        self.move_log.push(
            PlayerMoveLog {
                player,
                mov: MoveLog::Play { card_idx, card: cwk.0, know: cwk.1, success },
            },
        );
        self.finish_turn(player);
        proof {
            self.lemma_hand_validity_after_removal(pre, player, card_idx);
        }
    }

    /// After removing one card and perhaps drawing one, every card in every
    /// hand still obeys the variant's rules.
    proof fn lemma_hand_validity_after_removal(&self, pre: Game, player: Player, card_idx: CardIdx)
        requires
            pre.wf(),
            player < pre.spec_hands().len(),
            1 <= card_idx.0 <= pre.spec_hands()[player as int].spec_cards().len(),
            self.spec_variant() == pre.spec_variant(),
            self.spec_hands().len() == pre.spec_hands().len(),
            forall|j: int|
                0 <= j < pre.spec_hands().len() && j != player ==> self.spec_hands()[j]
                    == pre.spec_hands()[j],
            self.spec_hands()[player as int] is Visible,
            draw_effect(
                pre.spec_deck(),
                pre.spec_hands()[player as int].spec_cards().remove(card_idx.0 - 1),
                self.spec_deck(),
                self.spec_hands()[player as int].spec_cards(),
                pre.spec_variant(),
            ),
        ensures
            forall|i: int, j: int|
                0 <= i < self.spec_hands().len() && 0 <= j < self.spec_hands()[
                    i
                ].spec_cards().len() ==> (#[trigger] self.spec_hands()[i].spec_cards()[j]).0.valid(
                    self.spec_variant(),
                ),
    {
        let prehand = pre.spec_hands()[player as int].spec_cards();
        let removed = prehand.remove(card_idx.0 - 1);
        assert forall|i: int, j: int|
            0 <= i < self.spec_hands().len() && 0 <= j < self.spec_hands()[
                i
            ].spec_cards().len() implies (#[trigger] self.spec_hands()[i].spec_cards()[j]).0.valid(
            self.spec_variant(),
        ) by {
            if i == player as int {
                let posthand = self.spec_hands()[i].spec_cards();
                if pre.spec_deck().spec_len() == 0 {
                    assert(posthand[j] == removed[j]);
                } else if j < removed.len() {
                    assert(posthand.take(removed.len() as int)[j] == posthand[j]);
                    assert(posthand[j] == removed[j]);
                } else {
                    assert(j == posthand.len() - 1);
                    assert(posthand[j] == posthand.last());
                    assert(posthand.last().0 == pre.spec_deck().spec_cards().last());
                }
            }
        }
    }

    /// Discard the card at `card_idx` for a hint token; then draw.
    fn do_discard(&mut self, player: Player, card_idx: CardIdx)
        requires
            old(self).wf(),
            old(self).spec_state() == GameState::NextPlayer(player),
            old(self).spec_hints() != MAX_HINTS,
            1 <= card_idx.0 <= old(self).spec_hands()[player as int].spec_len(),
        ensures
            final(self).wf(),
            discard_effect(*old(self), *final(self), player, card_idx),
    {
        proof {
            old(self).lemma_counter_bounds();
        }
        let ghost pre = *old(self);
        let cwk = match self.hands[player].take(card_idx) {
            Some(c) => c,
            None => {
                proof {
                    assert(false);
                }
                CardWithKnowledge(Card { c: Color::Blue, v: 1 }, CardKnowledge::new(
                    GameVariant::Base,
                    Turn::Start,
                ))
            },
        };
        proof {
            lemma_hands_card_total_update(
                pre.spec_hands(),
                player as int,
                self.spec_hands()[player as int],
            );
        }
        self.discarded.push(cwk.0);
        self.hints = self.hints + 1;
        let ghost mid = *self;
        self.hands[player].draw(self.variant, &mut self.deck);
        proof {
            lemma_hands_card_total_update(
                mid.spec_hands(),
                player as int,
                self.spec_hands()[player as int],
            );
        }
        self.move_log.push(
            PlayerMoveLog { player, mov: MoveLog::Discard { card_idx, card: cwk.0, know: cwk.1 } },
        );
        self.finish_turn(player);
        proof {
            self.lemma_hand_validity_after_removal(pre, player, card_idx);
        }
    }

    /// Spend a hint token to tell player `hp` which of their cards the hint
    /// names.
    fn do_hint(&mut self, player: Player, hp: Player, hint: Hint)
        requires
            old(self).wf(),
            old(self).spec_state() == GameState::NextPlayer(player),
            old(self).spec_hints() >= 1,
            hp != player,
            hp < old(self).spec_players().len(),
            hint matches Hint::ValueHint(v) ==> 1 <= v <= MAX_VALUE,
            hint matches Hint::ColorHint(c) ==> c != Color::Multi,
        ensures
            final(self).wf(),
            hint_effect(*old(self), *final(self), player, hp, hint),
    {
        let ghost pre = *old(self);
        self.hints = self.hints - 1;
        let indices = match self.hands[hp].hint(hint) {
            Ok(v) => v,
            Err(_) => {
                proof {
                    assert(false);
                }
                Vec::new()
            },
        };
        proof {
            lemma_hands_card_total_update(
                pre.spec_hands(),
                hp as int,
                self.spec_hands()[hp as int],
            );
        }
        self.move_log.push(
            PlayerMoveLog {
                player,
                mov: MoveLog::Hint { hinted_player: hp, hint, card_indices: indices },
            },
        );
        self.finish_turn(player);
        proof {
            assert(final(self).spec_log().take(pre.spec_log().len() as int) =~= pre.spec_log());
            let prehand = pre.spec_hands()[hp as int].spec_cards();
            assert forall|i: int, j: int|
                0 <= i < self.spec_hands().len() && 0 <= j < self.spec_hands()[
                    i
                ].spec_cards().len() implies (#[trigger] self.spec_hands()[i].spec_cards()[j]).0
                .valid(self.spec_variant()) by {
                if i == hp as int {
                    assert(hint_applied(prehand[j], self.spec_hands()[i].spec_cards()[j], hint));
                }
            }
        }
    }

    /// Apply one move by the player in seat `player`.  A refused move
    /// leaves the game exactly as it was; an accepted move plays out as the
    /// move's effect describes.
    pub fn make_move(&mut self, player: Player, mov: Move) -> (r: Result<(), &'static str>)
        requires
            old(self).wf(),
        ensures
            final(self).wf(),
            (r is Err) <==> (move_err_msg(*old(self), player, mov) is Some),
            r matches Err(m) ==> move_err_msg(*old(self), player, mov) == Some(m@),
            r is Err ==> *final(self) == *old(self),
            r is Ok ==> move_effect(*old(self), *final(self), player, mov),
    {
        let next_player = match self.game_state {
            GameState::NextPlayer(p) => p,
            _ => {
                return Err("Game has ended.");
            },
        };
        if player != next_player {
            return Err("Not this player's turn.");
        }
        match mov {
            Move::Play { card_idx } => {
                let hlen = self.hands[player].len();
                if !(1 <= card_idx.0 && card_idx.0 <= hlen) {
                    return Err("Card index out of range.");
                }
                self.do_play(player, card_idx);
                Ok(())
            },
            Move::Discard { card_idx } => {
                if self.hints == MAX_HINTS {
                    return Err("Already at max hints; discarding not allowed.");
                }
                let hlen = self.hands[player].len();
                if !(1 <= card_idx.0 && card_idx.0 <= hlen) {
                    return Err("Card index out of range.");
                }
                self.do_discard(player, card_idx);
                Ok(())
            },
            Move::Hint { hinted_player, hint } => {
                if let Some(msg) = self.hint_error(player, hinted_player, hint) {
                    return Err(msg);
                }
                self.do_hint(player, hinted_player, hint);
                Ok(())
            },
            Move::HintOtherPlayer { hint } => {
                if self.players.len() != 2 {
                    return Err("Specify the player to hint");
                }
                let hp = (player + 1) % 2;
                if let Some(msg) = self.hint_error(player, hp, hint) {
                    return Err(msg);
                }
                self.do_hint(player, hp, hint);
                Ok(())
            },
        }
    }

    /// A copy of the game that says the same: equal field for field, down
    /// to the contents of the vectors.
    pub fn duplicate(&self) -> (r: Game)
        requires
            self.spec_deck() is Visible,
            forall|i: int|
                0 <= i < self.spec_hands().len() ==> (#[trigger] self.spec_hands()[i]) is Visible,
        ensures
            game_equiv(*self, r),
    {
        let mut hands: Vec<Hand> = Vec::new();
        let mut i: usize = 0;
        while i < self.hands.len()
            invariant
                i <= self.spec_hands().len(),
                forall|j: int|
                    0 <= j < self.spec_hands().len() ==> (#[trigger] self.spec_hands()[j]) is Visible,
                hands@.len() == i,
                forall|j: int|
                    0 <= j < i ==> hand_equiv(self.spec_hands()[j], #[trigger] hands@[j]),
            decreases self.spec_hands().len() - i,
        {
            hands.push(clone_hand(&self.hands[i]));
            i = i + 1;
        }
        let deck = match &self.deck {
            Deck::Visible(cards) => Deck::Visible(copy_vec(cards)),
            Deck::Hidden(n) => Deck::Hidden(*n),
        };
        Game {
            players: clone_strings(&self.players),
            start_player: self.start_player,
            game_state: self.game_state,
            last_player: self.last_player,
            cards_per_player: self.cards_per_player,
            hints: self.hints,
            lives: self.lives,
            variant: self.variant,
            deck,
            hands,
            discarded: copy_vec(&self.discarded),
            played: Played(copy_vec(&self.played.0)),
            move_log: clone_log(&self.move_log),
        }
    }

    /// The game as the player in seat `player` may see it: the deck and
    /// that player's own cards are replaced by what the player knows.
    pub fn to_view(&self, player: Player) -> (r: Game)
        requires
            self.spec_deck() is Visible,
            forall|i: int|
                0 <= i < self.spec_hands().len() ==> (#[trigger] self.spec_hands()[i]) is Visible,
            player < self.spec_hands().len(),
        ensures
            is_view_of(r, *self, player as int),
    {
        let mut hands: Vec<Hand> = Vec::new();
        let mut i: usize = 0;
        while i < self.hands.len()
            invariant
                i <= self.spec_hands().len(),
                player < self.spec_hands().len(),
                forall|j: int|
                    0 <= j < self.spec_hands().len() ==> (#[trigger] self.spec_hands()[j]) is Visible,
                hands@.len() == i,
                forall|j: int|
                    0 <= j < i && j != player ==> hand_equiv(
                        self.spec_hands()[j],
                        #[trigger] hands@[j],
                    ),
                i > player ==> (hands@[player as int] is Hidden) && hands@[
                    player as int
                ].spec_knows() == self.spec_hands()[player as int].spec_cards().map_values(
                    |cwk: CardWithKnowledge| cwk.1,
                ),
            decreases self.spec_hands().len() - i,
        {
            if i == player {
                let mut own = clone_hand(&self.hands[i]);
                own.to_view();
                hands.push(own);
            } else {
                hands.push(clone_hand(&self.hands[i]));
            }
            i = i + 1;
        }
        Game {
            players: clone_strings(&self.players),
            start_player: self.start_player,
            game_state: self.game_state,
            last_player: self.last_player,
            cards_per_player: self.cards_per_player,
            hints: self.hints,
            lives: self.lives,
            variant: self.variant,
            deck: Deck::Hidden(self.deck.len()),
            hands,
            discarded: copy_vec(&self.discarded),
            played: Played(copy_vec(&self.played.0)),
            move_log: clone_log(&self.move_log),
        }
    }

    /// The game as the named user may see it: seated users get their
    /// redacted view, anyone else the full state of the finished or
    /// running game, as a room list viewer would.
    pub fn view_for_user(&self, user: &String) -> (r: Game)
        requires
            self.spec_deck() is Visible,
            forall|i: int|
                0 <= i < self.spec_hands().len() ==> (#[trigger] self.spec_hands()[i]) is Visible,
            self.spec_hands().len() == self.spec_players().len(),
        ensures
            user_view_ok(*self, user@, r),
    {
        match self.player_id(user) {
            Some(p) => {
                let r = self.to_view(p);
                proof {
                    assert(first_match(self.spec_players(), user@, p as int));
                }
                r
            },
            None => self.duplicate(),
        }
    }

    /// Apply one move by the named player.  The name is looked up among
    /// the seats; an unknown name is refused and changes nothing.
    pub fn make_move_as(&mut self, player: &String, mov: Move) -> (r: Result<(), &'static str>)
        requires
            old(self).wf(),
        ensures
            final(self).wf(),
            final(self).spec_players() == old(self).spec_players(),
            (forall|j: int|
                0 <= j < old(self).spec_players().len() ==> old(self).spec_players()[j]@
                    != player@) ==> (r matches Err(m) && m@ == "Player not found"@ && *final(self)
                == *old(self)),
            forall|i: int|
                first_match(old(self).spec_players(), player@, i) ==> {
                    &&& ((r is Err) <==> (move_err_msg(*old(self), i as usize, mov) is Some))
                    &&& (r matches Err(m) ==> move_err_msg(*old(self), i as usize, mov) == Some(
                        m@,
                    ))
                    &&& (r is Err ==> *final(self) == *old(self))
                    &&& (r is Ok ==> move_effect(*old(self), *final(self), i as usize, mov))
                },
    {
        match self.player_id(player) {
            Some(p) => {
                let r = self.make_move(p, mov);
                proof {
                    assert forall|i: int|
                        first_match(old(self).spec_players(), player@, i) implies i == p as int by {
                        lemma_first_match_unique(
                            old(self).spec_players(),
                            player@,
                            i,
                            p as int,
                        );
                    }
                }
                r
            },
            None => Err("Player not found"),
        }
    }

    /// The check standing before every hint, in the order the errors are
    /// reported.
    fn hint_error(&self, player: Player, hp: Player, hint: Hint) -> (r: Option<&'static str>)
        ensures
            (r is None) <==> (hint_err_msg(*self, player, hp, hint) is None),
            r matches Some(m) ==> hint_err_msg(*self, player, hp, hint) == Some(m@),
    {
        if self.hints == 0 {
            return Some("No hints remaining; hinting not allowed.");
        }
        if hp == player {
            return Some("Hinting yourself is not allowed.");
        }
        if hp >= self.players.len() {
            return Some("Player out of range");
        }
        match hint {
            Hint::ValueHint(v) => {
                if !(1 <= v && v <= MAX_VALUE) {
                    return Some("Hinted value is out of range.");
                }
            },
            Hint::ColorHint(c) => {
                if c == Color::Multi {
                    return Some("Hinting multi is not allowed.");
                }
            },
        }
        None
    }
}

} // verus!
