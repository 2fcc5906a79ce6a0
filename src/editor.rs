use crate::card::Card;
use crate::date::CardDate;
use crate::navigator::{
    child_rows, head_row, lemma_child_rows_congruent, lemma_child_rows_single,
    lemma_child_rows_split, lemma_resolve_push, lemma_rows_decompose, manage_row, rows, rows_before,
    shown_at,
};
use crate::node::{count_suffix, lemma_resolve_replaced, replaced_at, DeckNode, DeckPath};
use crate::util::decimal;
use crate::removal::{lemma_without_len, lemma_without_none, remove_positions, without};
use vstd::prelude::*;

verus! {

/// Why an edit was not made. The tree is then as it was.
#[derive(Clone, Copy, Debug, PartialEq, Eq, Structural)]
pub enum EditError {
    /// The path does not lead to a node (it was taken before the tree changed).
    NotFound,
    /// The edit does not apply to this kind of node.
    WrongKind,
    /// A selected position is past the end of the list, or a card index is.
    BadIndex,
    /// The date is not a day that the calendar has.
    BadDate,
}

/// A change to one card of a deck.
#[derive(Debug)]
pub enum CardEdit {
    Front(String),
    Back(String),
    Due(CardDate),
}

/// One edit of a node, as chosen in its edit session.
#[derive(Debug)]
pub enum EditOp {
    AddDeck(String),
    AddSet(String),
    AddCard(String, String),
    Rename(String),
    RemoveEntries(Vec<usize>),
    RemoveCards(Vec<usize>),
    EditCard(usize, CardEdit),
}

/// What an edit session offers for a node.
#[derive(Clone, Copy, Debug, PartialEq, Eq, Structural)]
pub enum EditChoice {
    AddDeck,
    AddSet,
    AddCard,
    EditCards,
    Rename,
    RemoveEntries,
    RemoveCards,
    Back,
}

/// Every selected position is below `len`.
pub open spec fn positions_within(selected: Seq<usize>, len: nat) -> bool {
    forall|k: int| 0 <= k < selected.len() ==> selected[k] < len
}

/// `after` is the set `before` with its children now `es`.
pub open spec fn with_entries(before: DeckNode, after: DeckNode, es: Seq<DeckNode>) -> bool {
    match before {
        DeckNode::DeckSet { name: n1, expanded: x1, .. } => match after {
            DeckNode::DeckSet { name: n2, entries: e2, expanded: x2 } => n1 == n2 && x1 == x2 && e2@
                == es,
            DeckNode::Deck { .. } => false,
        },
        DeckNode::Deck { .. } => false,
    }
}

/// `after` is the deck `before` with its cards now `cs`.
pub open spec fn with_cards(before: DeckNode, after: DeckNode, cs: Seq<Card>) -> bool {
    match before {
        DeckNode::Deck { name: n1, .. } => match after {
            DeckNode::Deck { name: n2, cards: c2 } => n1 == n2 && c2@ == cs,
            DeckNode::DeckSet { .. } => false,
        },
        DeckNode::DeckSet { .. } => false,
    }
}

/// `after` is the set `before` with one more child at the end.
pub open spec fn entry_appended(before: DeckNode, after: DeckNode) -> bool {
    after.entries_of().len() == before.entries_of().len() + 1 && with_entries(
        before,
        after,
        before.entries_of().push(after.entries_of().last()),
    )
}

/// `after` is the deck `before` with one more card at the end.
pub open spec fn card_appended(before: DeckNode, after: DeckNode) -> bool {
    after.cards_of().len() == before.cards_of().len() + 1 && with_cards(
        before,
        after,
        before.cards_of().push(after.cards_of().last()),
    )
}

/// `n` is a deck with this name and no cards.
pub open spec fn is_empty_deck(n: DeckNode, name: Seq<char>) -> bool {
    n matches DeckNode::Deck { name: nm, cards } && nm@ == name && cards@.len() == 0
}

/// `n` is an expanded set with this name and no children.
pub open spec fn is_empty_set(n: DeckNode, name: Seq<char>) -> bool {
    n matches DeckNode::DeckSet { name: nm, entries, expanded } && nm@ == name && entries@.len()
        == 0 && expanded
}

/// The node under a new name, all else kept.
pub open spec fn renamed(n: DeckNode, name: String) -> DeckNode {
    match n {
        DeckNode::DeckSet { entries, expanded, .. } => DeckNode::DeckSet { name, entries, expanded },
        DeckNode::Deck { cards, .. } => DeckNode::Deck { name, cards },
    }
}

/// The card after an edit.
pub open spec fn edited_card(c: Card, e: CardEdit) -> Card {
    match e {
        CardEdit::Front(t) => Card { front: t, back: c.back, due: c.due },
        CardEdit::Back(t) => Card { front: c.front, back: t, due: c.due },
        CardEdit::Due(d) => Card { front: c.front, back: c.back, due: d },
    }
}

/// Why `op` cannot be made on `n`, if it cannot.
pub open spec fn op_error(n: DeckNode, op: EditOp) -> Option<EditError> {
    match op {
        EditOp::AddDeck(_) | EditOp::AddSet(_) => if n is DeckSet {
            None
        } else {
            Some(EditError::WrongKind)
        },
        EditOp::AddCard(_, _) => if n is Deck {
            None
        } else {
            Some(EditError::WrongKind)
        },
        EditOp::Rename(_) => None,
        EditOp::RemoveEntries(sel) => if !(n is DeckSet) {
            Some(EditError::WrongKind)
        } else if !positions_within(sel@, n.entries_of().len()) {
            Some(EditError::BadIndex)
        } else {
            None
        },
        EditOp::RemoveCards(sel) => if !(n is Deck) {
            Some(EditError::WrongKind)
        } else if !positions_within(sel@, n.cards_of().len()) {
            Some(EditError::BadIndex)
        } else {
            None
        },
        EditOp::EditCard(i, e) => if !(n is Deck) {
            Some(EditError::WrongKind)
        } else if i >= n.cards_of().len() {
            Some(EditError::BadIndex)
        } else if e matches CardEdit::Due(d) && !d.wf() {
            Some(EditError::BadDate)
        } else {
            None
        },
    }
}

/// `after` is `before` with `op` made on it.
pub open spec fn op_done(before: DeckNode, after: DeckNode, op: EditOp) -> bool {
    match op {
        EditOp::AddDeck(name) => entry_appended(before, after) && is_empty_deck(
            after.entries_of().last(),
            name@,
        ),
        EditOp::AddSet(name) => entry_appended(before, after) && is_empty_set(
            after.entries_of().last(),
            name@,
        ),
        EditOp::AddCard(front, back) => card_appended(before, after) && after.cards_of().last().front@
            == front@ && after.cards_of().last().back@ == back@ && after.cards_of().last().wf(),
        EditOp::Rename(name) => after == renamed(before, name),
        EditOp::RemoveEntries(sel) => with_entries(before, after, without(before.entries_of(), sel@)),
        EditOp::RemoveCards(sel) => with_cards(before, after, without(before.cards_of(), sel@)),
        EditOp::EditCard(i, e) => with_cards(
            before,
            after,
            before.cards_of().update(i as int, edited_card(before.cards_of()[i as int], e)),
        ),
    }
}

/// The choices of a node's edit session: a set can get a deck or a set, a deck
/// a card; both can be renamed; the options that work on existing children or
/// cards are left out when there are none; the last choice leaves the session.
pub open spec fn choices_for(n: DeckNode) -> Seq<EditChoice> {
    match n {
        DeckNode::DeckSet { entries, .. } => if entries@.len() == 0 {
            seq![EditChoice::AddDeck, EditChoice::AddSet, EditChoice::Rename, EditChoice::Back]
        } else {
            seq![
                EditChoice::AddDeck,
                EditChoice::AddSet,
                EditChoice::Rename,
                EditChoice::RemoveEntries,
                EditChoice::Back,
            ]
        },
        DeckNode::Deck { cards, .. } => if cards@.len() == 0 {
            seq![EditChoice::AddCard, EditChoice::Rename, EditChoice::Back]
        } else {
            seq![
                EditChoice::AddCard,
                EditChoice::EditCards,
                EditChoice::Rename,
                EditChoice::RemoveCards,
                EditChoice::Back,
            ]
        },
    }
}

/// Whether removing `selected` must first be confirmed: only a removal that
/// removes something is.
pub fn needs_confirmation(selected: &Vec<usize>) -> (r: bool)
    ensures
        r == (selected@.len() > 0),
{
    selected.len() > 0
}

/// The removal that a session makes once the user has chosen positions: only
/// a removal choice with a non-empty, confirmed selection removes anything.
pub fn removal_op(choice: EditChoice, selected: Vec<usize>, confirmed: bool) -> (r: Option<EditOp>)
    ensures
        r is Some <==> ((choice == EditChoice::RemoveEntries || choice == EditChoice::RemoveCards)
            && selected@.len() > 0 && confirmed),
        r is Some && choice == EditChoice::RemoveEntries ==> r == Some(EditOp::RemoveEntries(selected)),
        r is Some && choice == EditChoice::RemoveCards ==> r == Some(EditOp::RemoveCards(selected)),
{
    if !confirmed || !needs_confirmation(&selected) {
        return None;
    }
    match choice {
        EditChoice::RemoveEntries => Some(EditOp::RemoveEntries(selected)),
        EditChoice::RemoveCards => Some(EditOp::RemoveCards(selected)),
        _ => None,
    }
}

fn check_positions(selected: &Vec<usize>, len: usize) -> (r: bool)
    ensures
        r == positions_within(selected@, len as nat),
{
    let mut i: usize = 0;
    while i < selected.len()
        invariant
            i <= selected@.len(),
            forall|k: int| 0 <= k < i ==> selected@[k] < len,
        decreases selected@.len() - i,
    {
        if selected[i] >= len {
            return false;
        }
        i = i + 1;
    }
    true
}

impl DeckNode {
    /// The choices that the edit session of this node offers.
    pub fn edit_choices(&self) -> (r: Vec<EditChoice>)
        ensures
            r@ == choices_for(*self),
    {
        match self {
            DeckNode::DeckSet { entries, .. } => if entries.len() == 0 {
                vec![EditChoice::AddDeck, EditChoice::AddSet, EditChoice::Rename, EditChoice::Back]
            } else {
                vec![
                    EditChoice::AddDeck,
                    EditChoice::AddSet,
                    EditChoice::Rename,
                    EditChoice::RemoveEntries,
                    EditChoice::Back,
                ]
            },
            DeckNode::Deck { cards, .. } => if cards.len() == 0 {
                vec![EditChoice::AddCard, EditChoice::Rename, EditChoice::Back]
            } else {
                vec![
                    EditChoice::AddCard,
                    EditChoice::EditCards,
                    EditChoice::Rename,
                    EditChoice::RemoveCards,
                    EditChoice::Back,
                ]
            },
        }
    }

    /// Why `op` cannot be made on this node, if it cannot.
    pub fn edit_error(&self, op: &EditOp) -> (r: Option<EditError>)
        ensures
            r == op_error(*self, *op),
    {
        match op {
            EditOp::AddDeck(_) | EditOp::AddSet(_) => match self {
                DeckNode::DeckSet { .. } => None,
                DeckNode::Deck { .. } => Some(EditError::WrongKind),
            },
            EditOp::AddCard(_, _) => match self {
                DeckNode::DeckSet { .. } => Some(EditError::WrongKind),
                DeckNode::Deck { .. } => None,
            },
            EditOp::Rename(_) => None,
            EditOp::RemoveEntries(sel) => match self {
                DeckNode::DeckSet { entries, .. } => if check_positions(sel, entries.len()) {
                    None
                } else {
                    Some(EditError::BadIndex)
                },
                DeckNode::Deck { .. } => Some(EditError::WrongKind),
            },
            EditOp::RemoveCards(sel) => match self {
                DeckNode::DeckSet { .. } => Some(EditError::WrongKind),
                DeckNode::Deck { cards, .. } => if check_positions(sel, cards.len()) {
                    None
                } else {
                    Some(EditError::BadIndex)
                },
            },
            EditOp::EditCard(i, e) => match self {
                DeckNode::DeckSet { .. } => Some(EditError::WrongKind),
                DeckNode::Deck { cards, .. } => if *i >= cards.len() {
                    Some(EditError::BadIndex)
                } else {
                    match e {
                        CardEdit::Due(d) => if CardDate::from_ymd(d.year, d.month, d.day).is_none() {
                            Some(EditError::BadDate)
                        } else {
                            None
                        },
                        _ => None,
                    }
                },
            },
        }
    }
}

impl DeckNode {
    /// Adds an empty deck with this name at the end of a set's children.
    pub fn add_deck(&mut self, name: String) -> (r: Result<(), EditError>)
        ensures
            r == (match op_error(*old(self), EditOp::AddDeck(name)) {
                Some(e) => Err(e),
                None => Ok(()),
            }),
            r is Ok ==> op_done(*old(self), *final(self), EditOp::AddDeck(name)),
            r is Err ==> *final(self) == *old(self),
    {
        match self {
            DeckNode::DeckSet { entries, .. } => {
                entries.push(DeckNode::new_deck(name.as_str()));
                Ok(())
            },
            DeckNode::Deck { .. } => Err(EditError::WrongKind),
        }
    }

    /// Adds an empty, expanded set with this name at the end of a set's children.
    pub fn add_set(&mut self, name: String) -> (r: Result<(), EditError>)
        ensures
            r == (match op_error(*old(self), EditOp::AddSet(name)) {
                Some(e) => Err(e),
                None => Ok(()),
            }),
            r is Ok ==> op_done(*old(self), *final(self), EditOp::AddSet(name)),
            r is Err ==> *final(self) == *old(self),
    {
        match self {
            DeckNode::DeckSet { entries, .. } => {
                entries.push(DeckNode::new_set(name.as_str()));
                Ok(())
            },
            DeckNode::Deck { .. } => Err(EditError::WrongKind),
        }
    }

    /// Adds a card with these texts, due today, at the end of a deck's cards.
    pub fn add_card(&mut self, front: String, back: String) -> (r: Result<(), EditError>)
        ensures
            r == (match op_error(*old(self), EditOp::AddCard(front, back)) {
                Some(e) => Err(e),
                None => Ok(()),
            }),
            r is Ok ==> op_done(*old(self), *final(self), EditOp::AddCard(front, back)),
            r is Err ==> *final(self) == *old(self),
    {
        match self {
            DeckNode::DeckSet { .. } => Err(EditError::WrongKind),
            DeckNode::Deck { cards, .. } => {
                cards.push(Card::new(front.as_str(), back.as_str()));
                Ok(())
            },
        }
    }

    /// Gives the node a new name.
    pub fn rename(&mut self, name: String)
        ensures
            *final(self) == renamed(*old(self), name),
    {
        match self {
            DeckNode::DeckSet { name: n, .. } => {
                *n = name;
            },
            DeckNode::Deck { name: n, .. } => {
                *n = name;
            },
        }
    }

    /// Removes the children of a set at the selected positions; the others keep
    /// their order. Removing nothing leaves the node untouched.
    pub fn remove_entries(&mut self, selected: &Vec<usize>) -> (r: Result<(), EditError>)
        ensures
            r == (match op_error(*old(self), EditOp::RemoveEntries(*selected)) {
                Some(e) => Err(e),
                None => Ok(()),
            }),
            r is Ok ==> op_done(*old(self), *final(self), EditOp::RemoveEntries(*selected)),
            r is Ok && selected@.no_duplicates() ==> final(self).entries_of().len() == old(
                self,
            ).entries_of().len() - selected@.len(),
            r is Err ==> *final(self) == *old(self),
            selected@.len() == 0 ==> *final(self) == *old(self),
    {
        match self {
            DeckNode::DeckSet { entries, .. } => {
                if !check_positions(selected, entries.len()) {
                    return Err(EditError::BadIndex);
                }
                if selected.len() == 0 {
                    proof {
                        lemma_without_none(entries@, selected@);
                    }
                    return Ok(());
                }
                proof {
                    if selected@.no_duplicates() {
                        vstd::std_specs::vec::axiom_spec_len(entries);
                        lemma_without_len(entries@, selected@);
                    }
                }
                remove_positions(entries, selected);
                Ok(())
            },
            DeckNode::Deck { .. } => Err(EditError::WrongKind),
        }
    }

    /// Removes the cards of a deck at the selected positions; the others keep
    /// their order. Removing nothing leaves the node untouched.
    pub fn remove_cards(&mut self, selected: &Vec<usize>) -> (r: Result<(), EditError>)
        ensures
            r == (match op_error(*old(self), EditOp::RemoveCards(*selected)) {
                Some(e) => Err(e),
                None => Ok(()),
            }),
            r is Ok ==> op_done(*old(self), *final(self), EditOp::RemoveCards(*selected)),
            r is Ok && selected@.no_duplicates() ==> final(self).cards_of().len() == old(
                self,
            ).cards_of().len() - selected@.len(),
            r is Err ==> *final(self) == *old(self),
            selected@.len() == 0 ==> *final(self) == *old(self),
    {
        match self {
            DeckNode::DeckSet { .. } => Err(EditError::WrongKind),
            DeckNode::Deck { cards, .. } => {
                if !check_positions(selected, cards.len()) {
                    return Err(EditError::BadIndex);
                }
                if selected.len() == 0 {
                    proof {
                        lemma_without_none(cards@, selected@);
                    }
                    return Ok(());
                }
                proof {
                    if selected@.no_duplicates() {
                        vstd::std_specs::vec::axiom_spec_len(cards);
                        lemma_without_len(cards@, selected@);
                    }
                }
                remove_positions(cards, selected);
                Ok(())
            },
        }
    }

    /// Changes one card of a deck.
    pub fn edit_card(&mut self, index: usize, edit: CardEdit) -> (r: Result<(), EditError>)
        ensures
            r == (match op_error(*old(self), EditOp::EditCard(index, edit)) {
                Some(e) => Err(e),
                None => Ok(()),
            }),
            r is Ok ==> op_done(*old(self), *final(self), EditOp::EditCard(index, edit)),
            r is Err ==> *final(self) == *old(self),
    {
        match self {
            DeckNode::DeckSet { .. } => Err(EditError::WrongKind),
            DeckNode::Deck { cards, .. } => {
                if index >= cards.len() {
                    return Err(EditError::BadIndex);
                }
                match edit {
                    CardEdit::Front(t) => {
                        cards[index].front = t;
                    },
                    CardEdit::Back(t) => {
                        cards[index].back = t;
                    },
                    CardEdit::Due(d) => {
                        if CardDate::from_ymd(d.year, d.month, d.day).is_none() {
                            return Err(EditError::BadDate);
                        }
                        cards[index].due = d;
                    },
                }
                Ok(())
            },
        }
    }
}

impl DeckNode {
    /// Makes `op` on this node.
    pub fn apply(&mut self, op: EditOp) -> (r: Result<(), EditError>)
        ensures
            r == (match op_error(*old(self), op) {
                Some(e) => Err(e),
                None => Ok(()),
            }),
            r is Ok ==> op_done(*old(self), *final(self), op),
            r is Err ==> *final(self) == *old(self),
    {
        match op {
            EditOp::AddDeck(name) => self.add_deck(name),
            EditOp::AddSet(name) => self.add_set(name),
            EditOp::AddCard(front, back) => self.add_card(front, back),
            EditOp::Rename(name) => {
                self.rename(name);
                Ok(())
            },
            EditOp::RemoveEntries(sel) => self.remove_entries(&sel),
            EditOp::RemoveCards(sel) => self.remove_cards(&sel),
            EditOp::EditCard(i, e) => self.edit_card(i, e),
        }
    }

    /// Makes `op` on the node that `path` leads to. Nothing changes when the path
    /// leads nowhere or the edit cannot be made there.
    pub fn apply_at(&mut self, path: DeckPath, op: EditOp) -> (r: Result<(), EditError>)
        ensures
            (r == Err::<(), EditError>(EditError::NotFound)) == old(self).resolve(path@).is_none(),
            old(self).resolve(path@).is_some() ==> r == (match op_error(
                old(self).resolve(path@).unwrap(),
                op,
            ) {
                Some(e) => Err(e),
                None => Ok(()),
            }),
            r is Ok ==> final(self).resolve(path@).is_some() && replaced_at(
                *old(self),
                *final(self),
                path@,
                final(self).resolve(path@).unwrap(),
            ) && op_done(old(self).resolve(path@).unwrap(), final(self).resolve(path@).unwrap(), op),
            r is Err ==> *final(self) == *old(self),
    {
        proof {
            assert(path@.subrange(0, path@.len() as int) == path@);
        }
        match self.at_from(&path.0, 0) {
            None => {
                return Err(EditError::NotFound);
            },
            Some(n) => {
                if let Some(e) = n.edit_error(&op) {
                    return Err(e);
                }
            },
        }
        match self.at_mut(path) {
            Some(m) => {
                let r = m.apply(op);
                proof {
                    lemma_resolve_replaced(*old(self), *final(self), path@, *final(m));
                }
                r
            },
            None => Err(EditError::NotFound),
        }
    }
}

/// Adding a deck to a shown, expanded set gives the menu a row for the new
/// deck one level below the set's row, after the rows of the set's earlier
/// children, and the path of that row leads to the new, empty deck.
pub proof fn lemma_added_deck_located(
    root: DeckNode,
    after: DeckNode,
    p: Seq<usize>,
    n: DeckNode,
    m: DeckNode,
    name: String,
)
    requires
        root.resolve(p) == Some(n),
        n matches DeckNode::DeckSet { expanded, .. } && expanded,
        shown_at(root, p),
        op_done(n, m, EditOp::AddDeck(name)),
        replaced_at(root, after, p, m),
    ensures
        after.resolve(p.push(n.entries_of().len() as usize)) == Some(m.entries_of().last()),
        is_empty_deck(m.entries_of().last(), name@),
        rows(after, seq![])[rows_before(root, seq![], p).len() as int] == head_row(m, p),
        rows(after, seq![])[rows_before(root, seq![], p).len() + 1 + child_rows(
            n.entries_of(),
            p,
            0,
            n.entries_of().len(),
        ).len() as int] == head_row(m.entries_of().last(), p.push(n.entries_of().len() as usize)),
        m.entries_of().last().label() == "📕 "@ + name@ + count_suffix(0),
{
    let e: Seq<usize> = seq![];
    let es = n.entries_of();
    let es2 = m.entries_of();
    let k = es.len();
    let d = es2.last();
    m.lemma_entries_bounded();
    assert(e + p =~= p);
    lemma_rows_decompose(root, after, p, m, e);
    lemma_resolve_replaced(root, after, p, m);
    lemma_resolve_push(after, p, k as usize);
    assert(es2[k as int] == d);
    lemma_child_rows_split(es2, p, 0, k, k + 1);
    lemma_child_rows_single(es2, p, k);
    assert forall|j: int| 0 <= j < k implies rows(es[j], p.push(j as usize)) == rows(
        es2[j],
        p.push(j as usize),
    ) by {
        assert(es2[j] == es.push(d)[j]);
    }
    lemma_child_rows_congruent(es, es2, p, 0, k);
    let before = rows_before(root, e, p);
    let c = child_rows(es, p, 0, k);
    assert(rows(d, p.push(k as usize)) == seq![head_row(d, p.push(k as usize))]);
    assert(child_rows(es2, p, 0, es2.len()) == c + seq![head_row(d, p.push(k as usize))]);
    assert(rows(m, p) == seq![head_row(m, p)] + child_rows(es2, p, 0, es2.len()) + seq![
        manage_row(p),
    ]);
    assert(rows(after, e)[before.len() as int] == head_row(m, p));
    assert(rows(after, e)[(before.len() + 1 + c.len()) as int] == head_row(d, p.push(k as usize)));
    assert(decimal(0) == seq!['0']);
}

/// Removing an empty selection takes nothing away.
pub proof fn lemma_empty_selection_removes_nothing<A>(s: Seq<A>)
    ensures
        without(s, seq![]) == s,
{
    lemma_without_none(s, seq![]);
}

} // verus!
