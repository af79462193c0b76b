//! Card-level data for the Hanabi game: colors, cards, per-card knowledge,
//! the draw deck, the fireworks piles, and one player's hand.

use vstd::prelude::*;
use vstd::multiset::Multiset;
use vstd::seq_lib::group_to_multiset_ensures;

verus! {

/// Card values run from 1 to `MAX_VALUE`.
pub type Value = usize;

pub const MAX_VALUE: usize = 5;

pub const NUM_COLORS: usize = 6;

/// The six card colors. `Multi` takes part only in the `Multi` and
/// `MultiHard` variants.
#[derive(Debug, Clone, Copy, PartialEq, Eq, Structural)]
pub enum Color {
    Blue,
    Green,
    Red,
    White,
    Yellow,
    Multi,
}

impl Color {
    /// The position of this color in the fixed color order.
    pub open spec fn spec_index(self) -> int {
        match self {
            Color::Blue => 0,
            Color::Green => 1,
            Color::Red => 2,
            Color::White => 3,
            Color::Yellow => 4,
            Color::Multi => 5,
        }
    }

    pub fn index(self) -> (r: usize)
        ensures
            r == self.spec_index(),
    {
        match self {
            Color::Blue => 0,
            Color::Green => 1,
            Color::Red => 2,
            Color::White => 3,
            Color::Yellow => 4,
            Color::Multi => 5,
        }
    }

    /// The color standing at position `i` of the fixed color order.
    pub open spec fn spec_from_index(i: int) -> Color {
        if i == 0 {
            Color::Blue
        } else if i == 1 {
            Color::Green
        } else if i == 2 {
            Color::Red
        } else if i == 3 {
            Color::White
        } else if i == 4 {
            Color::Yellow
        } else {
            Color::Multi
        }
    }

    pub fn from_index(i: usize) -> (r: Color)
        requires
            i < NUM_COLORS,
        ensures
            r == Color::spec_from_index(i as int),
            r.spec_index() == i,
    {
        if i == 0 {
            Color::Blue
        } else if i == 1 {
            Color::Green
        } else if i == 2 {
            Color::Red
        } else if i == 3 {
            Color::White
        } else if i == 4 {
            Color::Yellow
        } else {
            Color::Multi
        }
    }
}

/// What a player knows about one attribute (a value or a color) of a card in
/// their own hand.
#[derive(Debug, Clone, Copy, PartialEq, Eq, Structural)]
pub enum KnowledgeState {
    Possible,
    Known,
    Impossible,
}

/// The turn at which a card was picked up.
#[derive(Debug, Clone, Copy, PartialEq, Eq, Structural)]
pub enum Turn {
    Start,
    Turn(usize),
}

/// A fixed-size array with one entry per color.
#[derive(Debug, Clone, Copy, PartialEq, Eq)]
pub struct ColorArray<T>(pub [T; 6]);

impl<T> ColorArray<T> {
    pub open spec fn spec_get(self, c: Color) -> T {
        self.0@[c.spec_index()]
    }

    pub fn get(&self, c: Color) -> (r: &T)
        ensures
            *r == self.spec_get(c),
    {
        &self.0[c.index()]
    }

    pub fn set(&mut self, c: Color, t: T)
        ensures
            final(self).0@ == old(self).0@.update(c.spec_index(), t),
    {
        self.0[c.index()] = t;
    }
}

/// The number of entries of `s` equal to `t`.
pub open spec fn count_eq_in(s: Seq<KnowledgeState>, t: KnowledgeState) -> int
    decreases s.len(),
{
    if s.len() == 0 {
        0
    } else {
        count_eq_in(s.drop_last(), t) + if s.last() == t {
            1int
        } else {
            0int
        }
    }
}

impl ColorArray<KnowledgeState> {
    /// The first color whose entry equals `t`, in the fixed color order.
    pub fn find_eq(&self, t: KnowledgeState) -> (r: Option<Color>)
        ensures
            match r {
                Some(c) => self.0@[c.spec_index()] == t && forall|j: int|
                    0 <= j < c.spec_index() ==> self.0@[j] != t,
                None => forall|j: int| 0 <= j < NUM_COLORS ==> self.0@[j] != t,
            },
    {
        let mut i: usize = 0;
        while i < NUM_COLORS
            invariant
                i <= NUM_COLORS,
                forall|j: int| 0 <= j < i ==> self.0@[j] != t,
            decreases NUM_COLORS - i,
        {
            let c = Color::from_index(i);
            if self.0[i] == t {
                return Some(c);
            }
            i = i + 1;
        }
        None
    }

    /// How many entries equal `t`.
    pub fn count_eq(&self, t: KnowledgeState) -> (r: usize)
        ensures
            r == count_eq_in(self.0@, t),
    {
        let mut i: usize = 0;
        let mut cnt: usize = 0;
        while i < NUM_COLORS
            invariant
                i <= NUM_COLORS,
                cnt == count_eq_in(self.0@.subrange(0, i as int), t),
                cnt <= i,
            decreases NUM_COLORS - i,
        {
            if self.0[i] == t {
                cnt = cnt + 1;
            }
            proof {
                assert(self.0@.subrange(0, i + 1).drop_last() =~= self.0@.subrange(0, i as int));
            }
            i = i + 1;
        }
        proof {
            assert(self.0@.subrange(0, NUM_COLORS as int) =~= self.0@);
        }
        cnt
    }
}

/// One card: a color and a value in `1..=MAX_VALUE`.
#[derive(Debug, Clone, Copy, PartialEq, Eq, Structural)]
pub struct Card {
    pub c: Color,
    pub v: Value,
}

impl Card {
    /// A card the rules allow in the given variant.
    pub open spec fn valid(self, variant: GameVariant) -> bool {
        1 <= self.v <= MAX_VALUE && self.c.spec_index() < variant.spec_num_colors()
    }
}

/// The three rule variants: base game, base plus a sixth color, and the
/// sixth color with only one copy of each value.
#[derive(Debug, Clone, Copy, PartialEq, Eq, Structural)]
pub enum GameVariant {
    Base,
    Multi,
    MultiHard,
}

impl GameVariant {
    pub open spec fn spec_num_colors(self) -> int {
        match self {
            GameVariant::Base => 5,
            GameVariant::Multi | GameVariant::MultiHard => 6,
        }
    }

    pub fn num_colors(&self) -> (r: usize)
        ensures
            r == self.spec_num_colors(),
    {
        match self {
            GameVariant::Base => 5,
            GameVariant::Multi | GameVariant::MultiHard => 6,
        }
    }

    /// The best reachable score: a full pile of `MAX_VALUE` cards per color.
    pub fn max_score(&self) -> (r: usize)
        ensures
            r == 5 * self.spec_num_colors(),
    {
        5 * self.num_colors()
    }

    pub open spec fn spec_has_multi(self) -> bool {
        self.spec_num_colors() == 6
    }

    pub fn has_multi(&self) -> (r: bool)
        ensures
            r == self.spec_has_multi(),
    {
        match self {
            GameVariant::Base => false,
            GameVariant::Multi | GameVariant::MultiHard => true,
        }
    }

    /// The colors taking part in this variant, in the fixed color order.
    pub fn colors(&self) -> (r: Vec<Color>)
        ensures
            r@.len() == self.spec_num_colors(),
            forall|i: int| 0 <= i < r@.len() ==> r@[i] == Color::spec_from_index(i),
    {
        let n = self.num_colors();
        let mut r: Vec<Color> = Vec::new();
        let mut i: usize = 0;
        while i < n
            invariant
                i <= n,
                n == self.spec_num_colors(),
                r@.len() == i,
                forall|j: int| 0 <= j < i ==> r@[j] == Color::spec_from_index(j),
            decreases n - i,
        {
            r.push(Color::from_index(i));
            i = i + 1;
        }
        r
    }
}

/// A one-based position of a card inside a hand, as players name them.
#[derive(Debug, Clone, Copy, PartialEq, Eq, Structural)]
pub struct CardIdx(pub usize);

/// A hint names either a value or a color.
#[derive(Debug, Clone, Copy, PartialEq, Eq, Structural)]
pub enum Hint {
    ValueHint(Value),
    ColorHint(Color),
}

/// How many copies of the card with color `c` and value `v` the full deck
/// holds in the given variant.
pub open spec fn spec_card_copies(variant: GameVariant, c: Color, v: int) -> int {
    if c == Color::Multi && variant == GameVariant::MultiHard {
        1
    } else if v == 1 {
        3
    } else if 2 <= v <= 4 {
        2
    } else {
        1
    }
}

/// The number of cards a full deck holds in the given variant.
pub open spec fn spec_deck_size(variant: GameVariant) -> int {
    match variant {
        GameVariant::Base => 50,
        GameVariant::Multi => 60,
        GameVariant::MultiHard => 55,
    }
}

/// The number of entries of `s` equal to `card`.
pub open spec fn count_card(s: Seq<Card>, card: Card) -> int
    decreases s.len(),
{
    if s.len() == 0 {
        0
    } else {
        count_card(s.drop_last(), card) + if s.last() == card {
            1int
        } else {
            0int
        }
    }
}

pub proof fn lemma_count_card_push(s: Seq<Card>, x: Card, y: Card)
    ensures
        count_card(s.push(x), y) == count_card(s, y) + if x == y {
            1int
        } else {
            0int
        },
{
    assert(s.push(x).drop_last() =~= s);
}

pub proof fn lemma_count_card_is_multiset_count(s: Seq<Card>, y: Card)
    ensures
        count_card(s, y) == s.to_multiset().count(y),
    decreases s.len(),
{
    broadcast use group_to_multiset_ensures;

    if s.len() == 0 {
        assert(s.to_multiset() =~= Multiset::empty());
    } else {
        lemma_count_card_is_multiset_count(s.drop_last(), y);
        assert(s =~= s.drop_last().push(s.last()));
        assert(s.drop_last().push(s.last()).to_multiset() =~= s.drop_last().to_multiset().insert(
            s.last(),
        ));
    }
}

/// The draw deck: visible to the server, hidden (only a count) in any view
/// handed to a player.
#[derive(Debug)]
pub enum Deck {
    Visible(Vec<Card>),
    Hidden(usize),
}

impl Deck {
    /// How many cards are left, whether or not they are visible.
    pub open spec fn spec_len(&self) -> int {
        match self {
            Deck::Visible(cs) => cs@.len() as int,
            Deck::Hidden(n) => *n as int,
        }
    }

    /// The cards of a visible deck; the last entry is drawn first.
    pub open spec fn spec_cards(&self) -> Seq<Card> {
        self->Visible_0@
    }

    /// Every card a visible deck holds obeys the variant's rules.
    pub open spec fn all_valid(&self, variant: GameVariant) -> bool {
        forall|i: int|
            0 <= i < self.spec_cards().len() ==> (#[trigger] self.spec_cards()[i]).valid(variant)
    }

    /// How many copies of the card with color `c` and value `v` the deck
    /// starts with.
    pub fn count(variant: GameVariant, c: Color, v: Value) -> (r: usize)
        requires
            1 <= v <= MAX_VALUE,
        ensures
            r == spec_card_copies(variant, c, v as int),
    {
        if c == Color::Multi && variant == GameVariant::MultiHard {
            return 1;
        }
        if v == 1 {
            3
        } else if v <= 4 {
            2
        } else {
            1
        }
    }

    /// Build the full deck for the variant and shuffle it.  The order is
    /// random; the contents are exactly the rule-book multiset of cards.
    pub fn new(variant: GameVariant) -> (r: Deck)
        ensures
            r is Visible,
            r.spec_cards().len() == spec_deck_size(variant),
            r.all_valid(variant),
            forall|card: Card|
                #[trigger] count_card(r.spec_cards(), card) == if card.valid(variant) {
                    spec_card_copies(variant, card.c, card.v as int)
                } else {
                    0
                },
    {
        let colors = variant.colors();
        let mut cards: Vec<Card> = Vec::new();
        let mut ci: usize = 0;
        while ci < colors.len()
            invariant
                colors@.len() == variant.spec_num_colors(),
                forall|i: int| 0 <= i < colors@.len() ==> colors@[i] == Color::spec_from_index(i),
                ci <= colors@.len(),
                cards@.len() == size_built(variant, ci as int, 1),
                forall|card: Card|
                    #[trigger] count_card(cards@, card) == built_count(
                        variant,
                        card,
                        ci as int,
                        1,
                    ),
                forall|i: int| 0 <= i < cards@.len() ==> (#[trigger] cards@[i]).valid(variant),
            decreases colors@.len() - ci,
        {
            let c = colors[ci];
            let mut v: usize = 1;
            while v <= MAX_VALUE
                invariant
                    colors@.len() == variant.spec_num_colors(),
                    forall|i: int|
                        0 <= i < colors@.len() ==> colors@[i] == Color::spec_from_index(i),
                    ci < colors@.len(),
                    c == Color::spec_from_index(ci as int),
                    c.spec_index() == ci as int,
                    1 <= v <= MAX_VALUE + 1,
                    cards@.len() == size_built(variant, ci as int, v as int),
                    forall|card: Card|
                        #[trigger] count_card(cards@, card) == built_count(
                            variant,
                            card,
                            ci as int,
                            v as int,
                        ),
                    forall|i: int| 0 <= i < cards@.len() ==> (#[trigger] cards@[i]).valid(variant),
                decreases MAX_VALUE + 1 - v,
            {
                let n = Deck::count(variant, c, v);
                let mut j: usize = 0;
                while j < n
                    invariant
                        colors@.len() == variant.spec_num_colors(),
                        ci < colors@.len(),
                        c.spec_index() == ci as int,
                        1 <= v <= MAX_VALUE,
                        j <= n,
                        n == spec_card_copies(variant, c, v as int),
                        cards@.len() == size_built(variant, ci as int, v as int) + j,
                        forall|card: Card|
                            #[trigger] count_card(cards@, card) == built_count(
                                variant,
                                card,
                                ci as int,
                                v as int,
                            ) + if card == (Card { c, v }) {
                                j as int
                            } else {
                                0int
                            },
                        forall|i: int|
                            0 <= i < cards@.len() ==> (#[trigger] cards@[i]).valid(variant),
                    decreases n - j,
                {
                    let ghost prev = cards@;
                    cards.push(Card { c, v });
                    proof {
                        assert forall|card: Card|
                            #[trigger] count_card(cards@, card) == built_count(
                                variant,
                                card,
                                ci as int,
                                v as int,
                            ) + if card == (Card { c, v }) {
                                j + 1int
                            } else {
                                0int
                            } by {
                            lemma_count_card_push(prev, Card { c, v }, card);
                        }
                    }
                    j = j + 1;
                }
                proof {
                    assert forall|card: Card|
                        #[trigger] count_card(cards@, card) == built_count(
                            variant,
                            card,
                            ci as int,
                            v + 1int,
                        ) by {
                        assert(count_card(cards@, card) == built_count(variant, card, ci as int, v as int)
                            + if card == (Card { c, v }) {
                            spec_card_copies(variant, c, v as int)
                        } else {
                            0int
                        });
                    }
                }
                v = v + 1;
            }
            proof {
                assert forall|card: Card|
                    #[trigger] count_card(cards@, card) == built_count(
                        variant,
                        card,
                        ci + 1int,
                        1,
                    ) by {
                    assert(count_card(cards@, card) == built_count(
                        variant,
                        card,
                        ci as int,
                        (MAX_VALUE + 1) as int,
                    ));
                }
                assert(size_built(variant, ci + 1int, 1) == size_built(
                    variant,
                    ci as int,
                    (MAX_VALUE + 1) as int,
                )) by {
                    lemma_size_built_color_step(variant, ci as int);
                }
            }
            ci = ci + 1;
        }
        proof {
            lemma_size_built_total(variant);
        }
        let ghost unshuffled = cards@;
        crate::rng::shuffle_vec(&mut cards);
        proof {
            broadcast use group_to_multiset_ensures;

            assert forall|card: Card|
                #[trigger] count_card(cards@, card) == count_card(unshuffled, card) by {
                lemma_count_card_is_multiset_count(cards@, card);
                lemma_count_card_is_multiset_count(unshuffled, card);
            }
            assert forall|i: int| 0 <= i < cards@.len() implies (#[trigger] cards@[i]).valid(
                variant,
            ) by {
                assert(cards@.contains(cards@[i]));
                assert(cards@.to_multiset().count(cards@[i]) > 0);
                assert(unshuffled.to_multiset().count(cards@[i]) > 0);
                assert(unshuffled.contains(cards@[i]));
                let j = choose|j: int| 0 <= j < unshuffled.len() && unshuffled[j] == cards@[i];
                assert(unshuffled[j].valid(variant));
            }
        }
        Deck::Visible(cards)
    }

    /// Draw the top card of a visible deck, if one is left.
    pub fn take(&mut self) -> (r: Option<Card>)
        requires
            *old(self) is Visible,
        ensures
            *final(self) is Visible,
            old(self).spec_len() == 0 ==> r is None && final(self).spec_cards() == old(
                self,
            ).spec_cards(),
            old(self).spec_len() > 0 ==> r == Some(old(self).spec_cards().last())
                && final(self).spec_cards() == old(self).spec_cards().drop_last(),
    {
        match self {
            Deck::Visible(cards) => {
                let r = cards.pop();
                proof {
                    if old(self).spec_cards().len() > 0 {
                        assert(old(self).spec_cards().subrange(
                            0,
                            old(self).spec_cards().len() - 1,
                        ) =~= old(self).spec_cards().drop_last());
                    }
                }
                r
            },
            Deck::Hidden(_) => {
                proof {
                    assert(false);
                }
                None
            },
        }
    }

    /// Whether the deck has run out.
    pub fn is_empty(&self) -> (r: bool)
        ensures
            r == (self.spec_len() == 0),
    {
        match self {
            Deck::Visible(cards) => cards.len() == 0,
            Deck::Hidden(len) => *len == 0,
        }
    }

    pub fn len(&self) -> (r: usize)
        ensures
            r == self.spec_len(),
    {
        match self {
            Deck::Visible(cards) => cards.len(),
            Deck::Hidden(len) => *len,
        }
    }

    /// Replace the deck by its card count, hiding the cards themselves.
    pub fn conceal(&mut self)
        ensures
            *final(self) is Hidden,
            final(self).spec_len() == old(self).spec_len(),
    {
        let len = self.len();
        *self = Deck::Hidden(len);
    }
}

/// The number of cards pushed once every color before `ci` is fully dealt
/// with and, for the color at `ci`, every value below `v` is.
pub open spec fn size_built(variant: GameVariant, ci: int, v: int) -> int
    decreases ci, v,
{
    if v > 1 {
        size_built(variant, ci, v - 1) + spec_card_copies(
            variant,
            Color::spec_from_index(ci),
            v - 1,
        )
    } else if ci > 0 {
        size_built(variant, ci - 1, MAX_VALUE + 1 as int)
    } else {
        0
    }
}

/// How many copies of `card` stand among the cards counted by
/// `size_built(variant, ci, v)`.
pub open spec fn built_count(variant: GameVariant, card: Card, ci: int, v: int) -> int {
    if !card.valid(variant) {
        0
    } else if card.c.spec_index() < ci || (card.c.spec_index() == ci && card.v < v) {
        spec_card_copies(variant, card.c, card.v as int)
    } else {
        0
    }
}

/// The sum of a sequence of counters.
pub open spec fn seq_usize_sum(s: Seq<usize>) -> int
    decreases s.len(),
{
    if s.len() == 0 {
        0
    } else {
        seq_usize_sum(s.drop_last()) + s.last()
    }
}

/// The number of piles in `s` built up to the top value.
pub open spec fn count_full(s: Seq<usize>) -> int
    decreases s.len(),
{
    if s.len() == 0 {
        0
    } else {
        count_full(s.drop_last()) + if s.last() == MAX_VALUE {
            1int
        } else {
            0int
        }
    }
}

/// The fireworks piles: for each color, how far the pile has been built up.
#[derive(Debug)]
pub struct Played(pub Vec<usize>);

impl Played {
    /// Every pile height a finished or running game can show.
    pub open spec fn wf(&self) -> bool {
        self.0@.len() <= NUM_COLORS && forall|i: int|
            0 <= i < self.0@.len() ==> #[trigger] self.0@[i] <= MAX_VALUE
    }

    /// One empty pile per color of the variant.
    pub fn new(variant: GameVariant) -> (r: Played)
        ensures
            r.0@.len() == variant.spec_num_colors(),
            forall|i: int| 0 <= i < r.0@.len() ==> #[trigger] r.0@[i] == 0,
            r.wf(),
            seq_usize_sum(r.0@) == 0,
            count_full(r.0@) == 0,
    {
        let n = variant.num_colors();
        let mut v: Vec<usize> = Vec::new();
        let mut i: usize = 0;
        while i < n
            invariant
                i <= n,
                n <= NUM_COLORS,
                v@.len() == i,
                forall|j: int| 0 <= j < i ==> #[trigger] v@[j] == 0,
                seq_usize_sum(v@) == 0,
                count_full(v@) == 0,
            decreases n - i,
        {
            let ghost prev = v@;
            v.push(0);
            proof {
                assert(v@.drop_last() =~= prev);
            }
            i = i + 1;
        }
        Played(v)
    }

    /// The score: the piles' total height.
    pub fn score(&self) -> (r: usize)
        requires
            self.wf(),
        ensures
            r == seq_usize_sum(self.0@),
            r <= 30,
    {
        let mut i: usize = 0;
        let mut sum: usize = 0;
        while i < self.0.len()
            invariant
                self.wf(),
                i <= self.0@.len(),
                sum == seq_usize_sum(self.0@.subrange(0, i as int)),
                sum <= i * MAX_VALUE,
            decreases self.0@.len() - i,
        {
            proof {
                assert(self.0@.subrange(0, i + 1).drop_last() =~= self.0@.subrange(0, i as int));
                assert(self.0@.subrange(0, i + 1).last() == self.0@[i as int]);
            }
            sum = sum + self.0[i];
            i = i + 1;
        }
        proof {
            assert(self.0@.subrange(0, self.0@.len() as int) =~= self.0@);
        }
        sum
    }

    /// Put `card` on its pile if it is the next value there; otherwise hand
    /// it back unchanged as the error.
    pub fn play(&mut self, card: Card) -> (r: Result<Card, Card>)
        requires
            old(self).wf(),
            0 <= card.c.spec_index() < old(self).0@.len(),
            card.v <= MAX_VALUE,
        ensures
            final(self).wf(),
            final(self).0@.len() == old(self).0@.len(),
            card.v == old(self).0@[card.c.spec_index()] + 1 ==> r == Ok::<Card, Card>(card)
                && final(self).0@ == old(self).0@.update(card.c.spec_index(), card.v),
            card.v != old(self).0@[card.c.spec_index()] + 1 ==> r == Err::<Card, Card>(card)
                && final(self).0@ == old(self).0@,
    {
        let idx = card.c.index();
        let cur = self.0[idx];
        if card.v != cur + 1 {
            Err(card)
        } else {
            self.0[idx] = cur + 1;
            Ok(card)
        }
    }
}

/// What a player has learned about one card in their own hand: for each
/// value and each color, whether the card can still have it.
#[derive(Debug, Clone, Copy, PartialEq, Eq)]
pub struct CardKnowledge {
    /// Entry `i` speaks of value `i + 1`.
    pub vs: [KnowledgeState; 5],
    pub cs: ColorArray<KnowledgeState>,
    pub picked_up: Turn,
}

/// The knowledge a freshly drawn card starts with: everything possible,
/// except that the sixth color is ruled out when the variant lacks it.
pub open spec fn is_fresh_knowledge(k: CardKnowledge, variant: GameVariant, turn: Turn) -> bool {
    &&& forall|i: int| 0 <= i < 5 ==> k.vs@[i] == KnowledgeState::Possible
    &&& forall|j: int|
        0 <= j < 6 ==> k.cs.0@[j] == if j == 5 && !variant.spec_has_multi() {
            KnowledgeState::Impossible
        } else {
            KnowledgeState::Possible
        }
    &&& k.picked_up == turn
}

impl CardKnowledge {
    pub fn new(variant: GameVariant, turn: Turn) -> (r: CardKnowledge)
        ensures
            is_fresh_knowledge(r, variant, turn),
    {
        let p = KnowledgeState::Possible;
        let mut this = CardKnowledge {
            vs: [p, p, p, p, p],
            cs: ColorArray([p, p, p, p, p, p]),
            picked_up: turn,
        };
        if !variant.has_multi() {
            this.cs.set(Color::Multi, KnowledgeState::Impossible);
        }
        this
    }
}

/// A card together with what its holder knows about it.
#[derive(Debug, Clone, Copy, PartialEq, Eq)]
pub struct CardWithKnowledge(pub Card, pub CardKnowledge);

/// Whether a hint names this card.
pub open spec fn card_matches(card: Card, hint: Hint) -> bool {
    match hint {
        Hint::ValueHint(v) => card.v == v,
        Hint::ColorHint(c) => card.c == c || card.c == Color::Multi,
    }
}

/// The one-based positions of the cards a hint names, in order.
pub open spec fn hinted_indices(cards: Seq<CardWithKnowledge>, hint: Hint) -> Seq<CardIdx>
    decreases cards.len(),
{
    if cards.len() == 0 {
        Seq::empty()
    } else {
        let rest = hinted_indices(cards.drop_last(), hint);
        if card_matches(cards.last().0, hint) {
            rest.push(CardIdx(cards.len() as usize))
        } else {
            rest
        }
    }
}

/// Once only one possibility is left, it is known: if exactly one entry is
/// `Possible`, it becomes `Known`.
pub open spec fn promote_single(s: Seq<KnowledgeState>) -> Seq<KnowledgeState> {
    if count_eq_in(s, KnowledgeState::Possible) == 1 {
        s.map_values(
            |k: KnowledgeState|
                if k == KnowledgeState::Possible {
                    KnowledgeState::Known
                } else {
                    k
                },
        )
    } else {
        s
    }
}

/// The value knowledge after a value hint for `v` names the card: the value
/// is fixed.
pub open spec fn value_hint_yes(v: int) -> Seq<KnowledgeState> {
    Seq::new(
        5,
        |i: int|
            if i == v - 1 {
                KnowledgeState::Known
            } else {
                KnowledgeState::Impossible
            },
    )
}

/// The value knowledge after a value hint for `v` passes the card over.
pub open spec fn value_hint_no(vs: Seq<KnowledgeState>, v: int) -> Seq<KnowledgeState> {
    promote_single(vs.update(v - 1, KnowledgeState::Impossible))
}

/// The color knowledge after a color hint for `c` names the card: every
/// color but `c` and the sixth, multi-colored one is ruled out.
pub open spec fn color_hint_yes(cs: Seq<KnowledgeState>, c: Color) -> Seq<KnowledgeState> {
    promote_single(
        Seq::new(
            6,
            |j: int|
                if j == c.spec_index() || j == 5 {
                    cs[j]
                } else {
                    KnowledgeState::Impossible
                },
        ),
    )
}

/// The color knowledge after a color hint for `c` passes the card over:
/// both `c` and the multi color are ruled out.
pub open spec fn color_hint_no(cs: Seq<KnowledgeState>, c: Color) -> Seq<KnowledgeState> {
    promote_single(
        cs.update(5, KnowledgeState::Impossible).update(c.spec_index(), KnowledgeState::Impossible),
    )
}

/// Count the entries of `a` equal to `t`.
fn ks_count<const N: usize>(a: &[KnowledgeState; N], t: KnowledgeState) -> (r: usize)
    ensures
        r == count_eq_in(a@, t),
{
    let mut i: usize = 0;
    let mut cnt: usize = 0;
    while i < N
        invariant
            i <= N,
            cnt == count_eq_in(a@.subrange(0, i as int), t),
            cnt <= i,
        decreases N - i,
    {
        if a[i] == t {
            cnt = cnt + 1;
        }
        proof {
            assert(a@.subrange(0, i + 1).drop_last() =~= a@.subrange(0, i as int));
        }
        i = i + 1;
    }
    proof {
        assert(a@.subrange(0, N as int) =~= a@);
    }
    cnt
}

/// If exactly one entry of `a` is still `Possible`, turn it into `Known`.
fn ks_promote_single<const N: usize>(a: &mut [KnowledgeState; N])
    ensures
        final(a)@ == promote_single(old(a)@),
{
    let n = ks_count(a, KnowledgeState::Possible);
    if n == 1 {
        let mut i: usize = 0;
        while i < N
            invariant
                i <= N,
                a@.len() == N,
                forall|j: int|
                    0 <= j < i ==> a@[j] == if old(a)@[j] == KnowledgeState::Possible {
                        KnowledgeState::Known
                    } else {
                        old(a)@[j]
                    },
                forall|j: int| i <= j < N ==> a@[j] == old(a)@[j],
            decreases N - i,
        {
            if a[i] == KnowledgeState::Possible {
                a[i] = KnowledgeState::Known;
            }
            i = i + 1;
        }
        proof {
            assert(final(a)@ =~= old(a)@.map_values(
                |k: KnowledgeState|
                    if k == KnowledgeState::Possible {
                        KnowledgeState::Known
                    } else {
                        k
                    },
            ));
        }
    }
}

/// Apply a value hint for `v` to the knowledge of one card.
fn apply_value_hint(know: &mut CardKnowledge, v: usize, named: bool)
    requires
        1 <= v <= MAX_VALUE,
    ensures
        final(know).vs@ == if named {
            value_hint_yes(v as int)
        } else {
            value_hint_no(old(know).vs@, v as int)
        },
        final(know).cs == old(know).cs,
        final(know).picked_up == old(know).picked_up,
{
    if named {
        let imp = KnowledgeState::Impossible;
        know.vs = [imp, imp, imp, imp, imp];
        know.vs[v - 1] = KnowledgeState::Known;
        proof {
            assert(know.vs@ =~= value_hint_yes(v as int));
        }
    } else {
        know.vs[v - 1] = KnowledgeState::Impossible;
        ks_promote_single(&mut know.vs);
    }
}

/// Apply a color hint for `c` to the knowledge of one card.
fn apply_color_hint(know: &mut CardKnowledge, c: Color, named: bool)
    requires
        c != Color::Multi,
    ensures
        final(know).cs.0@ == if named {
            color_hint_yes(old(know).cs.0@, c)
        } else {
            color_hint_no(old(know).cs.0@, c)
        },
        final(know).vs == old(know).vs,
        final(know).picked_up == old(know).picked_up,
{
    if named {
        let mut i: usize = 0;
        let cidx = c.index();
        while i < NUM_COLORS
            invariant
                i <= NUM_COLORS,
                cidx == c.spec_index(),
                know.vs == old(know).vs,
                know.picked_up == old(know).picked_up,
                forall|j: int|
                    0 <= j < i ==> know.cs.0@[j] == if j == c.spec_index() || j == 5 {
                        old(know).cs.0@[j]
                    } else {
                        KnowledgeState::Impossible
                    },
                forall|j: int| i <= j < NUM_COLORS ==> know.cs.0@[j] == old(know).cs.0@[j],
            decreases NUM_COLORS - i,
        {
            if i != cidx && i != NUM_COLORS - 1 {
                know.cs.0[i] = KnowledgeState::Impossible;
            }
            i = i + 1;
        }
        proof {
            assert(know.cs.0@ =~= Seq::new(
                6,
                |j: int|
                    if j == c.spec_index() || j == 5 {
                        old(know).cs.0@[j]
                    } else {
                        KnowledgeState::Impossible
                    },
            ));
        }
        ks_promote_single(&mut know.cs.0);
    } else {
        know.cs.0[NUM_COLORS - 1] = KnowledgeState::Impossible;
        let cidx = c.index();
        know.cs.0[cidx] = KnowledgeState::Impossible;
        ks_promote_single(&mut know.cs.0);
    }
}

/// One player's hand: the cards themselves where the server (or another
/// player) may see them, only the knowledge where their holder may not.
#[derive(Debug)]
pub enum Hand {
    Visible(Vec<CardWithKnowledge>),
    Hidden(Vec<CardKnowledge>),
}

impl Hand {
    pub open spec fn spec_cards(&self) -> Seq<CardWithKnowledge> {
        self->Visible_0@
    }

    pub open spec fn spec_knows(&self) -> Seq<CardKnowledge> {
        self->Hidden_0@
    }

    pub open spec fn spec_len(&self) -> int {
        match self {
            Hand::Visible(cards) => cards@.len() as int,
            Hand::Hidden(knows) => knows@.len() as int,
        }
    }

    /// How many cards the hand holds, whether or not they are visible.
    pub fn len(&self) -> (r: usize)
        ensures
            r == self.spec_len(),
    {
        match self {
            Hand::Visible(cards) => cards.len(),
            Hand::Hidden(knows) => knows.len(),
        }
    }

    /// Deal a fresh hand of `cards_per_player` cards from the deck.
    pub fn new(variant: GameVariant, cards_per_player: usize, deck: &mut Deck) -> (r: Hand)
        requires
            *old(deck) is Visible,
            old(deck).spec_len() >= cards_per_player,
        ensures
            r is Visible,
            r.spec_cards().len() == cards_per_player,
            forall|i: int|
                0 <= i < cards_per_player ==> (#[trigger] r.spec_cards()[i]).0 == old(
                    deck,
                ).spec_cards()[old(deck).spec_cards().len() - 1 - i],
            forall|i: int|
                0 <= i < cards_per_player ==> is_fresh_knowledge(
                    (#[trigger] r.spec_cards()[i]).1,
                    variant,
                    Turn::Start,
                ),
            *final(deck) is Visible,
            final(deck).spec_cards() == old(deck).spec_cards().take(
                old(deck).spec_cards().len() - cards_per_player,
            ),
    {
        let mut cards: Vec<CardWithKnowledge> = Vec::new();
        let mut i: usize = 0;
        while i < cards_per_player
            invariant
                i <= cards_per_player,
                *deck is Visible,
                old(deck).spec_cards().len() >= cards_per_player,
                deck.spec_cards() == old(deck).spec_cards().take(
                    old(deck).spec_cards().len() - i,
                ),
                cards@.len() == i,
                forall|j: int|
                    0 <= j < i ==> (#[trigger] cards@[j]).0 == old(deck).spec_cards()[old(
                        deck,
                    ).spec_cards().len() - 1 - j],
                forall|j: int|
                    0 <= j < i ==> is_fresh_knowledge(
                        (#[trigger] cards@[j]).1,
                        variant,
                        Turn::Start,
                    ),
            decreases cards_per_player - i,
        {
            proof {
                assert(deck.spec_cards().len() == old(deck).spec_cards().len() - i);
            }
            let card = match deck.take() {
                Some(card) => card,
                None => {
                    proof {
                        assert(false);
                    }
                    Card { c: Color::Blue, v: 1 }
                },
            };
            proof {
                assert(old(deck).spec_cards().take(old(deck).spec_cards().len() - i).last()
                    == old(deck).spec_cards()[old(deck).spec_cards().len() - 1 - i]);
                assert(old(deck).spec_cards().take(old(deck).spec_cards().len() - i).drop_last()
                    =~= old(deck).spec_cards().take(old(deck).spec_cards().len() - (i + 1)));
            }
            cards.push(CardWithKnowledge(card, CardKnowledge::new(variant, Turn::Start)));
            i = i + 1;
        }
        Hand::Visible(cards)
    }

    /// Draw the top card of the deck into the hand, if any card is left.
    pub fn draw(&mut self, variant: GameVariant, deck: &mut Deck)
        requires
            *old(self) is Visible,
            *old(deck) is Visible,
        ensures
            *final(self) is Visible,
            *final(deck) is Visible,
            old(deck).spec_len() == 0 ==> final(self).spec_cards() == old(self).spec_cards()
                && final(deck).spec_cards() == old(deck).spec_cards(),
            old(deck).spec_len() > 0 ==> {
                &&& final(self).spec_cards().len() == old(self).spec_cards().len() + 1
                &&& final(self).spec_cards().take(old(self).spec_cards().len() as int) == old(
                    self,
                ).spec_cards()
                &&& final(self).spec_cards().last().0 == old(deck).spec_cards().last()
                &&& is_fresh_knowledge(final(self).spec_cards().last().1, variant, Turn::Start)
                &&& final(deck).spec_cards() == old(deck).spec_cards().drop_last()
            },
    {
        match self {
            Hand::Visible(cards) => {
                if let Some(card) = deck.take() {
                    cards.push(CardWithKnowledge(card, CardKnowledge::new(variant, Turn::Start)));
                    proof {
                        assert(cards@.take(old(self).spec_cards().len() as int) =~= old(
                            self,
                        ).spec_cards());
                    }
                }
            },
            Hand::Hidden(_) => {
                proof {
                    assert(false);
                }
            },
        }
    }

    /// Remove and return the card at the given one-based position, if the
    /// position names a card.
    pub fn take(&mut self, card_idx: CardIdx) -> (r: Option<CardWithKnowledge>)
        requires
            *old(self) is Visible,
        ensures
            *final(self) is Visible,
            1 <= card_idx.0 <= old(self).spec_cards().len() ==> r == Some(
                old(self).spec_cards()[card_idx.0 - 1],
            ) && final(self).spec_cards() == old(self).spec_cards().remove(card_idx.0 - 1),
            !(1 <= card_idx.0 <= old(self).spec_cards().len()) ==> (r is None)
                && final(self).spec_cards() == old(self).spec_cards(),
    {
        match self {
            Hand::Visible(cards) => {
                if 1 <= card_idx.0 && card_idx.0 <= cards.len() {
                    Some(cards.remove(card_idx.0 - 1))
                } else {
                    None
                }
            },
            Hand::Hidden(_) => {
                proof {
                    assert(false);
                }
                None
            },
        }
    }

    /// Apply a hint to the hand.  The cards themselves do not change; the
    /// knowledge of each card does, and the one-based positions of the
    /// named cards are returned.
    pub fn hint(&mut self, hint: Hint) -> (r: Result<Vec<CardIdx>, &'static str>)
        requires
            *old(self) is Visible,
        ensures
            *final(self) is Visible,
            final(self).spec_cards().len() == old(self).spec_cards().len(),
            r is Err <==> (match hint {
                Hint::ValueHint(v) => !(1 <= v <= MAX_VALUE),
                Hint::ColorHint(c) => c == Color::Multi,
            }),
            r is Err ==> final(self).spec_cards() == old(self).spec_cards(),
            r is Ok ==> (r->Ok_0)@ == hinted_indices(old(self).spec_cards(), hint),
            r is Ok ==> forall|i: int|
                0 <= i < old(self).spec_cards().len() ==> hint_applied(
                    #[trigger] old(self).spec_cards()[i],
                    final(self).spec_cards()[i],
                    hint,
                ),
    {
        match self {
            Hand::Visible(cards) => {
                match hint {
                    Hint::ValueHint(v) => {
                        if !(1 <= v && v <= MAX_VALUE) {
                            return Err("Hinted value is out of range.");
                        }
                    },
                    Hint::ColorHint(c) => {
                        if c == Color::Multi {
                            return Err("Hinting multi is not allowed.");
                        }
                    },
                }
                let mut indices: Vec<CardIdx> = Vec::new();
                let mut i: usize = 0;
                while i < cards.len()
                    invariant
                        *old(self) is Visible,
                        cards@.len() == old(self).spec_cards().len(),
                        i <= cards@.len(),
                        match hint {
                            Hint::ValueHint(v) => 1 <= v <= MAX_VALUE,
                            Hint::ColorHint(c) => c != Color::Multi,
                        },
                        indices@ == hinted_indices(
                            old(self).spec_cards().take(i as int),
                            hint,
                        ),
                        forall|j: int|
                            0 <= j < i ==> hint_applied(
                                #[trigger] old(self).spec_cards()[j],
                                cards@[j],
                                hint,
                            ),
                        forall|j: int| i <= j < cards@.len() ==> cards@[j] == old(
                            self,
                        ).spec_cards()[j],
                    decreases cards@.len() - i,
                {
                    let mut cwk = cards[i];
                    let named = match hint {
                        Hint::ValueHint(v) => cwk.0.v == v,
                        Hint::ColorHint(c) => {
                            match (cwk.0.c, c) {
                                (Color::Multi, _) => true,
                                (a, b) => a == b,
                            }
                        },
                    };
                    if named {
                        indices.push(CardIdx(i + 1));
                    }
                    match hint {
                        Hint::ValueHint(v) => apply_value_hint(&mut cwk.1, v, named),
                        Hint::ColorHint(c) => apply_color_hint(&mut cwk.1, c, named),
                    }
                    cards[i] = cwk;
                    proof {
                        assert(old(self).spec_cards().take(i + 1).drop_last() =~= old(
                            self,
                        ).spec_cards().take(i as int));
                        assert(old(self).spec_cards().take(i + 1).last() == old(
                            self,
                        ).spec_cards()[i as int]);
                    }
                    i = i + 1;
                }
                proof {
                    assert(old(self).spec_cards().take(cards@.len() as int) =~= old(
                        self,
                    ).spec_cards());
                }
                Ok(indices)
            },
            Hand::Hidden(_) => {
                proof {
                    assert(false);
                }
                Err("")
            },
        }
    }

    /// Strip the card identities, keeping only the knowledge, as the hand's
    /// holder sees it.
    pub fn to_view(&mut self)
        requires
            *old(self) is Visible,
        ensures
            *final(self) is Hidden,
            final(self).spec_knows() == old(self).spec_cards().map_values(
                |cwk: CardWithKnowledge| cwk.1,
            ),
    {
        match self {
            Hand::Visible(cards) => {
                let mut knows: Vec<CardKnowledge> = Vec::new();
                let mut i: usize = 0;
                while i < cards.len()
                    invariant
                        i <= cards@.len(),
                        knows@.len() == i,
                        forall|j: int| 0 <= j < i ==> knows@[j] == (#[trigger] cards@[j]).1,
                    decreases cards@.len() - i,
                {
                    knows.push(cards[i].1);
                    i = i + 1;
                }
                proof {
                    assert(knows@ =~= cards@.map_values(|cwk: CardWithKnowledge| cwk.1));
                }
                *self = Hand::Hidden(knows);
            },
            Hand::Hidden(_) => {
                proof {
                    assert(false);
                }
            },
        }
    }
}

/// How a hint rewrites the knowledge of one card: the card itself and the
/// turn it was picked up stay, the value and color knowledge change as the
/// hint prescribes.
pub open spec fn hint_applied(
    before: CardWithKnowledge,
    after: CardWithKnowledge,
    hint: Hint,
) -> bool {
    &&& after.0 == before.0
    &&& after.1.picked_up == before.1.picked_up
    &&& match hint {
        Hint::ValueHint(v) => {
            &&& after.1.vs@ == if card_matches(before.0, hint) {
                value_hint_yes(v as int)
            } else {
                value_hint_no(before.1.vs@, v as int)
            }
            &&& after.1.cs == before.1.cs
        },
        Hint::ColorHint(c) => {
            &&& after.1.cs.0@ == if card_matches(before.0, hint) {
                color_hint_yes(before.1.cs.0@, c)
            } else {
                color_hint_no(before.1.cs.0@, c)
            }
            &&& after.1.vs == before.1.vs
        },
    }
}

proof fn lemma_size_built_color_step(variant: GameVariant, ci: int)
    requires
        ci >= 0,
    ensures
        size_built(variant, ci + 1, 1) == size_built(variant, ci, MAX_VALUE + 1 as int),
{
}

proof fn lemma_size_built_total(variant: GameVariant)
    ensures
        size_built(variant, variant.spec_num_colors(), 1) == spec_deck_size(variant),
{
    reveal_with_fuel(size_built, 40);
}

} // verus!
