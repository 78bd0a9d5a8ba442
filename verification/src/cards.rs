//! Card hands with a joker rule: a hand of five cards is classified by
//! its largest groups of equal labels, jokers joining whichever group is
//! already largest, and hands compare by type first, then card by card.

use vstd::prelude::*;

verus! {

/// A card label; `J` is the joker and ranks lowest.
#[derive(PartialEq, Eq, Structural, Clone, Copy, Debug)]
pub enum CardLabel {
    J,
    C2,
    C3,
    C4,
    C5,
    C6,
    C7,
    C8,
    C9,
    T,
    Q,
    K,
    A,
}

/// The classification of a hand, weakest first.
#[derive(PartialEq, Eq, Structural, Clone, Copy, Debug)]
pub enum HandType {
    HighCard,
    OnePair,
    TwoPair,
    ThreeKind,
    FullHouse,
    FourKind,
    FiveKind,
}

/// The rank of a card label, the joker lowest.
pub open spec fn card_rank(c: CardLabel) -> int {
    match c {
        CardLabel::J => 0,
        CardLabel::C2 => 1,
        CardLabel::C3 => 2,
        CardLabel::C4 => 3,
        CardLabel::C5 => 4,
        CardLabel::C6 => 5,
        CardLabel::C7 => 6,
        CardLabel::C8 => 7,
        CardLabel::C9 => 8,
        CardLabel::T => 9,
        CardLabel::Q => 10,
        CardLabel::K => 11,
        CardLabel::A => 12,
    }
}

/// The label of a rank.
pub open spec fn label_of(r: int) -> CardLabel {
    if r == 0 {
        CardLabel::J
    } else if r == 1 {
        CardLabel::C2
    } else if r == 2 {
        CardLabel::C3
    } else if r == 3 {
        CardLabel::C4
    } else if r == 4 {
        CardLabel::C5
    } else if r == 5 {
        CardLabel::C6
    } else if r == 6 {
        CardLabel::C7
    } else if r == 7 {
        CardLabel::C8
    } else if r == 8 {
        CardLabel::C9
    } else if r == 9 {
        CardLabel::T
    } else if r == 10 {
        CardLabel::Q
    } else if r == 11 {
        CardLabel::K
    } else {
        CardLabel::A
    }
}

/// The strength of a hand type, weakest lowest.
pub open spec fn type_rank(t: HandType) -> int {
    match t {
        HandType::HighCard => 1,
        HandType::OnePair => 2,
        HandType::TwoPair => 3,
        HandType::ThreeKind => 4,
        HandType::FullHouse => 5,
        HandType::FourKind => 6,
        HandType::FiveKind => 7,
    }
}

/// How many cards of `cards` carry the label `l`.
pub open spec fn count_label(cards: Seq<CardLabel>, l: CardLabel) -> int
    decreases cards.len(),
{
    if cards.len() == 0 {
        0
    } else {
        (if cards[0] == l {
            1int
        } else {
            0int
        }) + count_label(cards.skip(1), l)
    }
}

/// The largest label count among the non-joker ranks below `r`.
pub open spec fn best_upto(cards: Seq<CardLabel>, r: int) -> int
    decreases r,
{
    if r <= 1 {
        0
    } else {
        let prev = best_upto(cards, r - 1);
        let c = count_label(cards, label_of(r - 1));
        if c > prev {
            c
        } else {
            prev
        }
    }
}

/// The least non-joker rank below `r` that attains the largest count;
/// zero when every count is zero.
pub open spec fn best_rank_upto(cards: Seq<CardLabel>, r: int) -> int
    decreases r,
{
    if r <= 1 {
        0
    } else {
        let c = count_label(cards, label_of(r - 1));
        if c > best_upto(cards, r - 1) {
            r - 1
        } else {
            best_rank_upto(cards, r - 1)
        }
    }
}

/// The largest label count among the non-joker ranks below `r`, leaving
/// out the rank `skip`.
pub open spec fn second_upto(cards: Seq<CardLabel>, r: int, skip: int) -> int
    decreases r,
{
    if r <= 1 {
        0
    } else {
        let prev = second_upto(cards, r - 1, skip);
        let c = if r - 1 == skip {
            0int
        } else {
            count_label(cards, label_of(r - 1))
        };
        if c > prev {
            c
        } else {
            prev
        }
    }
}

/// The classification of the group sizes: the largest group (jokers
/// included) and the second-largest group decide the type.
pub open spec fn classify(first: int, second: int) -> HandType {
    if first >= 5 {
        HandType::FiveKind
    } else if first == 4 {
        HandType::FourKind
    } else if first == 3 {
        if second >= 2 {
            HandType::FullHouse
        } else {
            HandType::ThreeKind
        }
    } else if first == 2 {
        if second >= 2 {
            HandType::TwoPair
        } else {
            HandType::OnePair
        }
    } else {
        HandType::HighCard
    }
}

/// The type of a hand: jokers join the largest label group, and the two
/// largest groups classify the hand.
pub open spec fn spec_hand_type(cards: Seq<CardLabel>) -> HandType {
    let jokers = count_label(cards, CardLabel::J);
    let first = best_upto(cards, 13) + jokers;
    let second = second_upto(cards, 13, best_rank_upto(cards, 13));
    classify(first, second)
}

/// `c` is one of the thirteen card characters.
pub open spec fn valid_card_char(c: char) -> bool {
    c == '2' || c == '3' || c == '4' || c == '5' || c == '6' || c == '7' || c == '8' || c == '9'
        || c == 'T' || c == 'J' || c == 'Q' || c == 'K' || c == 'A'
}

/// The label a card character denotes.
pub open spec fn spec_label_of_char(c: char) -> CardLabel {
    if c == '2' {
        CardLabel::C2
    } else if c == '3' {
        CardLabel::C3
    } else if c == '4' {
        CardLabel::C4
    } else if c == '5' {
        CardLabel::C5
    } else if c == '6' {
        CardLabel::C6
    } else if c == '7' {
        CardLabel::C7
    } else if c == '8' {
        CardLabel::C8
    } else if c == '9' {
        CardLabel::C9
    } else if c == 'T' {
        CardLabel::T
    } else if c == 'J' {
        CardLabel::J
    } else if c == 'Q' {
        CardLabel::Q
    } else if c == 'K' {
        CardLabel::K
    } else {
        CardLabel::A
    }
}

/// The card-by-card comparison of two hands of equal type, the leftmost
/// differing card deciding.
pub open spec fn spec_lex(x: Seq<CardLabel>, y: Seq<CardLabel>) -> core::cmp::Ordering
    decreases x.len(),
{
    if x.len() == 0 || y.len() == 0 {
        core::cmp::Ordering::Equal
    } else if card_rank(x[0]) > card_rank(y[0]) {
        core::cmp::Ordering::Greater
    } else if card_rank(x[0]) < card_rank(y[0]) {
        core::cmp::Ordering::Less
    } else {
        spec_lex(x.skip(1), y.skip(1))
    }
}

/// The full hand order: the hand type decides, and equal types compare
/// card by card.
pub open spec fn spec_hand_cmp(a: Hand, b: Hand) -> core::cmp::Ordering {
    if type_rank(a.hand_type) > type_rank(b.hand_type) {
        core::cmp::Ordering::Greater
    } else if type_rank(a.hand_type) < type_rank(b.hand_type) {
        core::cmp::Ordering::Less
    } else {
        spec_lex(a.cards@, b.cards@)
    }
}

/// A hand of five cards and its classification.
#[derive(Debug)]
pub struct Hand {
    pub cards: Vec<CardLabel>,
    pub hand_type: HandType,
}

impl Hand {
    /// The exec rank of a card label.
    fn rank_of(c: CardLabel) -> (r: u8)
        ensures
            r == card_rank(c),
    {
        match c {
            CardLabel::J => 0,
            CardLabel::C2 => 1,
            CardLabel::C3 => 2,
            CardLabel::C4 => 3,
            CardLabel::C5 => 4,
            CardLabel::C6 => 5,
            CardLabel::C7 => 6,
            CardLabel::C8 => 7,
            CardLabel::C9 => 8,
            CardLabel::T => 9,
            CardLabel::Q => 10,
            CardLabel::K => 11,
            CardLabel::A => 12,
        }
    }

    /// Reads a hand of five card characters and classifies it.
    pub fn parse(input: &str) -> (r: Hand)
        requires
            input.is_ascii(),
            input@.len() == 5,
            forall|i: int| 0 <= i < input@.len() ==> valid_card_char(#[trigger] input@[i]),
        ensures
            r.cards@ == input@.map_values(|c: char| spec_label_of_char(c)),
            r.hand_type == spec_hand_type(input@.map_values(|c: char| spec_label_of_char(c))),
    {
        let mut found_cards: Vec<CardLabel> = Vec::new();
        let mut i: usize = 0;
        while i < 5
            invariant
                input.is_ascii(),
                input@.len() == 5,
                forall|k: int| 0 <= k < input@.len() ==> valid_card_char(#[trigger] input@[k]),
                i <= 5,
                found_cards@.len() == i,
                forall|k: int|
                    0 <= k < i ==> #[trigger] found_cards@[k] == spec_label_of_char(input@[k]),
            decreases 5 - i,
        {
            let c = input.get_ascii(i) as char;
            proof {
                assert(input@[i as int] <= '\u{7f}');
                assert(c == input@[i as int]);
            }
            let label = if c == '2' {
                CardLabel::C2
            } else if c == '3' {
                CardLabel::C3
            } else if c == '4' {
                CardLabel::C4
            } else if c == '5' {
                CardLabel::C5
            } else if c == '6' {
                CardLabel::C6
            } else if c == '7' {
                CardLabel::C7
            } else if c == '8' {
                CardLabel::C8
            } else if c == '9' {
                CardLabel::C9
            } else if c == 'T' {
                CardLabel::T
            } else if c == 'J' {
                CardLabel::J
            } else if c == 'Q' {
                CardLabel::Q
            } else if c == 'K' {
                CardLabel::K
            } else {
                CardLabel::A
            };
            found_cards.push(label);
            i = i + 1;
        }
        proof {
            assert(found_cards@ =~= input@.map_values(|c: char| spec_label_of_char(c)));
        }
        let hand_type = Self::determine_hand_type(&found_cards);
        Hand { cards: found_cards, hand_type }
    }

    /// Counts the cards with the label of rank `r`.
    fn count_rank(hand: &Vec<CardLabel>, r: u8) -> (c: usize)
        requires
            r < 13,
        ensures
            c == count_label(hand@, label_of(r as int)),
    {
        let ghost l = label_of(r as int);
        proof {
            lemma_count_label_bounds(hand@, l);
            assert(hand@.skip(0) =~= hand@);
        }
        let mut c: usize = 0;
        let mut i: usize = 0;
        while i < hand.len()
            invariant
                r < 13,
                l == label_of(r as int),
                i <= hand@.len(),
                c <= i,
                count_label(hand@, l) == c + count_label(hand@.skip(i as int), l),
            decreases hand@.len() - i,
        {
            proof {
                assert(hand@.skip(i as int)[0] == hand@[i as int]);
                assert(hand@.skip(i as int).skip(1) =~= hand@.skip(i + 1));
                lemma_count_label_bounds(hand@.skip(i + 1), l);
            }
            if Self::rank_of(hand[i]) == r {
                c = c + 1;
            }
            i = i + 1;
        }
        proof {
            assert(hand@.skip(hand@.len() as int) =~= Seq::<CardLabel>::empty());
        }
        c
    }

    /// Classifies a hand: jokers join the largest non-joker group, and
    /// the two largest groups decide the type.
    pub fn determine_hand_type(hand: &Vec<CardLabel>) -> (t: HandType)
        ensures
            t == spec_hand_type(hand@),
    {
        let jokers = Self::count_rank(hand, 0);
        let mut best: usize = 0;
        let mut best_rank: u8 = 0;
        let mut r: u8 = 1;
        while r < 13
            invariant
                1 <= r <= 13,
                best == best_upto(hand@, r as int),
                best_rank == best_rank_upto(hand@, r as int),
            decreases 13 - r,
    {
            let c = Self::count_rank(hand, r);
            if c > best {
                best = c;
                best_rank = r;
            }
            r = r + 1;
        }
        let mut second: usize = 0;
        let mut r2: u8 = 1;
        while r2 < 13
            invariant
                1 <= r2 <= 13,
                second == second_upto(hand@, r2 as int, best_rank as int),
            decreases 13 - r2,
        {
            if r2 != best_rank {
                let c = Self::count_rank(hand, r2);
                if c > second {
                    second = c;
                }
            }
            r2 = r2 + 1;
        }
        proof {
            lemma_count_label_bounds(hand@, CardLabel::J);
        }
        let first: u128 = best as u128 + jokers as u128;
        if first >= 5 {
            HandType::FiveKind
        } else if first == 4 {
            HandType::FourKind
        } else if first == 3 {
            if second >= 2 {
                HandType::FullHouse
            } else {
                HandType::ThreeKind
            }
        } else if first == 2 {
            if second >= 2 {
                HandType::TwoPair
            } else {
                HandType::OnePair
            }
        } else {
            HandType::HighCard
        }
    }

    /// Compares two hands: the stronger type wins, and equal types
    /// compare card by card from the left.
    pub fn cmp(&self, other: &Hand) -> (r: core::cmp::Ordering)
        ensures
            r == spec_hand_cmp(*self, *other),
    {
        let my_rank = Self::type_rank_of(self.hand_type);
        let your_rank = Self::type_rank_of(other.hand_type);
        if my_rank > your_rank {
            return core::cmp::Ordering::Greater;
        }
        if my_rank < your_rank {
            return core::cmp::Ordering::Less;
        }
        let n = if self.cards.len() <= other.cards.len() {
            self.cards.len()
        } else {
            other.cards.len()
        };
        let mut i: usize = 0;
        proof {
            assert(self.cards@.skip(0) =~= self.cards@);
            assert(other.cards@.skip(0) =~= other.cards@);
        }
        while i < n
            invariant
                type_rank(self.hand_type) == type_rank(other.hand_type),
                n <= self.cards@.len(),
                n <= other.cards@.len(),
                n == self.cards@.len() || n == other.cards@.len(),
                i <= n,
                spec_lex(self.cards@, other.cards@) == spec_lex(
                    self.cards@.skip(i as int),
                    other.cards@.skip(i as int),
                ),
            decreases n - i,
        {
            proof {
                assert(self.cards@.skip(i as int)[0] == self.cards@[i as int]);
                assert(other.cards@.skip(i as int)[0] == other.cards@[i as int]);
                assert(self.cards@.skip(i as int).skip(1) =~= self.cards@.skip(i + 1));
                assert(other.cards@.skip(i as int).skip(1) =~= other.cards@.skip(i + 1));
            }
            let mine = Self::rank_of(self.cards[i]);
            let yours = Self::rank_of(other.cards[i]);
            if mine > yours {
                proof {
                    assert(spec_lex(self.cards@.skip(i as int), other.cards@.skip(i as int))
                        == core::cmp::Ordering::Greater);
                }
                return core::cmp::Ordering::Greater;
            }
            if mine < yours {
                proof {
                    assert(spec_lex(self.cards@.skip(i as int), other.cards@.skip(i as int))
                        == core::cmp::Ordering::Less);
                }
                return core::cmp::Ordering::Less;
            }
            i = i + 1;
        }
        core::cmp::Ordering::Equal
    }

    /// The exec strength of a hand type.
    fn type_rank_of(t: HandType) -> (r: u8)
        ensures
            r == type_rank(t),
    {
        match t {
            HandType::HighCard => 1,
            HandType::OnePair => 2,
            HandType::TwoPair => 3,
            HandType::ThreeKind => 4,
            HandType::FullHouse => 5,
            HandType::FourKind => 6,
            HandType::FiveKind => 7,
        }
    }
}

/// A label count never exceeds the hand size.
proof fn lemma_count_label_bounds(cards: Seq<CardLabel>, l: CardLabel)
    ensures
        0 <= count_label(cards, l) <= cards.len(),
    decreases cards.len(),
{
    if cards.len() > 0 {
        lemma_count_label_bounds(cards.skip(1), l);
    }
}

} // verus!
