use crate::date::{today, CardDate};
use crate::util::{ellipsis, ellipsis_spec, truncated_to_width, TEXT_WIDTH};
use vstd::prelude::*;
use vstd::string::*;

verus! {

/// A flashcard: the text shown first, the text revealed after it, and the day
/// on which it is next due.
#[derive(Clone, Debug)]
pub struct Card {
    pub front: String,
    pub back: String,
    pub due: CardDate,
}

/// How a review of a card went.
#[derive(Clone, Copy, Debug, PartialEq, Eq, Structural)]
pub enum CardResult {
    Pass,
    Again,
}

/// A card text as it appears in a label: cut to the label width.
pub open spec fn shown_text(text: Seq<char>) -> Seq<char> {
    ellipsis_spec(text, truncated_to_width(text, TEXT_WIDTH as nat))
}

/// The label of a card in a list of cards.
pub open spec fn card_label(front: Seq<char>, back: Seq<char>) -> Seq<char> {
    "🃏 "@ + shown_text(front) + " / "@ + shown_text(back)
}

impl Card {
    /// The due date is a day that the calendar has.
    pub open spec fn wf(&self) -> bool {
        self.due.wf()
    }

    /// A card with these texts, due today.
    pub fn new(front: &str, back: &str) -> (r: Card)
        ensures
            r.front@ == front@,
            r.back@ == back@,
            r.wf(),
    {
        Card { front: front.to_owned(), back: back.to_owned(), due: today() }
    }

    /// The label of the card: both texts, each cut to the label width.
    pub fn display_name(&self) -> (r: String)
        ensures
            r@ == card_label(self.front@, self.back@),
    {
        let mut r = String::from_str("🃏 ");
        r.append(ellipsis(self.front.as_str(), TEXT_WIDTH).as_str());
        r.append(" / ");
        r.append(ellipsis(self.back.as_str(), TEXT_WIDTH).as_str());
        r
    }
}

} // verus!
