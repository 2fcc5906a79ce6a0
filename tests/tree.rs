use srs::card::Card;
use srs::date::CardDate;
use srs::editor::{needs_confirmation, removal_op, CardEdit, EditChoice, EditError, EditOp};
use srs::navigator::{NodePromptOption, MANAGE_LABEL};
use srs::node::{DeckNode, DeckPath, NodeAction};

fn sample() -> DeckNode {
    DeckNode::set(
        "All Decks",
        vec![
            DeckNode::set(
                "French",
                vec![
                    DeckNode::deck(
                        "Vocab",
                        vec![
                            Card::new("manger", "to eat"),
                            Card::new("voir", "to see"),
                            Card::new("faire", "to do"),
                            Card::new("gravir", "to climb"),
                        ],
                    ),
                    DeckNode::deck("Nouns", vec![]),
                ],
            ),
            DeckNode::deck("Comp Sci", vec![]),
        ],
    )
}

fn names(rows: &[NodePromptOption]) -> Vec<String> {
    rows.iter().map(|r| r.name.clone()).collect()
}

fn paths(rows: &[NodePromptOption]) -> Vec<Vec<usize>> {
    rows.iter().map(|r| r.path.0.iter().copied().collect()).collect()
}

fn entry_names(node: &DeckNode) -> Vec<String> {
    match node {
        DeckNode::DeckSet { entries, .. } => entries
            .iter()
            .map(|e| match e {
                DeckNode::DeckSet { name, .. } => name.clone(),
                DeckNode::Deck { name, .. } => name.clone(),
            })
            .collect(),
        DeckNode::Deck { .. } => panic!("not a set"),
    }
}

fn letters() -> DeckNode {
    DeckNode::set(
        "Letters",
        vec![
            DeckNode::new_deck("A"),
            DeckNode::new_deck("B"),
            DeckNode::new_deck("C"),
            DeckNode::new_deck("D"),
        ],
    )
}

#[test]
fn flatten_fully_expanded_tree() {
    let root = sample();
    let rows = root.prompt_options();
    assert_eq!(
        names(&rows),
        vec![
            "📂 All Decks (2)".to_string(),
            "📂 French (2)".to_string(),
            "📕 Vocab (4)".to_string(),
            "📕 Nouns (0)".to_string(),
            MANAGE_LABEL.to_string(),
            "📕 Comp Sci (0)".to_string(),
            MANAGE_LABEL.to_string(),
        ]
    );
    assert_eq!(
        paths(&rows),
        vec![vec![], vec![0], vec![0, 0], vec![0, 1], vec![0], vec![1], vec![]]
    );
    let actions: Vec<NodeAction> = rows.iter().map(|r| r.action).collect();
    assert_eq!(
        actions,
        vec![
            NodeAction::ToggleExpanded,
            NodeAction::ToggleExpanded,
            NodeAction::Edit,
            NodeAction::Edit,
            NodeAction::Edit,
            NodeAction::Edit,
            NodeAction::Edit,
        ]
    );
}

#[test]
fn collapsing_french_hides_its_decks() {
    let mut root = sample();
    let french = root.at_mut(DeckPath::new(vec![0])).unwrap();
    assert!(!french.prompt_select(NodeAction::ToggleExpanded));
    let rows = root.prompt_options();
    assert_eq!(
        names(&rows),
        vec![
            "📂 All Decks (2)".to_string(),
            "📁 French (2)".to_string(),
            "📕 Comp Sci (0)".to_string(),
            MANAGE_LABEL.to_string(),
        ]
    );
    assert_eq!(paths(&rows), vec![vec![], vec![0], vec![1], vec![]]);
}

#[test]
fn toggling_twice_restores_the_menu() {
    let mut root = sample();
    let before = root.prompt_options();
    root.at_mut(DeckPath::new(vec![0])).unwrap().toggle_expand();
    root.at_mut(DeckPath::new(vec![0])).unwrap().toggle_expand();
    let after = root.prompt_options();
    assert_eq!(names(&before), names(&after));
    assert_eq!(paths(&before), paths(&after));
    match root.at(DeckPath::new(vec![0])).unwrap() {
        DeckNode::DeckSet { expanded, .. } => assert!(*expanded),
        DeckNode::Deck { .. } => panic!("French is a set"),
    }
}

#[test]
fn every_row_path_resolves_to_its_node() {
    let mut root = sample();
    root.at_mut(DeckPath::new(vec![0, 0])).unwrap().toggle_expand();
    for row in root.prompt_options() {
        let node = root.at(row.path.clone()).unwrap();
        if row.name == MANAGE_LABEL {
            assert!(matches!(node, DeckNode::DeckSet { .. }));
        } else {
            assert_eq!(node.display_name(), row.name);
        }
    }
}

#[test]
fn add_deck_then_locate_it() {
    let mut root = sample();
    let french = root.at_mut(DeckPath::new(vec![0])).unwrap();
    assert_eq!(french.add_deck("Kanji".to_string()), Ok(()));
    let rows = root.prompt_options();
    let french_row = rows.iter().find(|r| r.name == "📂 French (3)").unwrap();
    let kanji_row = rows.iter().find(|r| r.name.contains("Kanji")).unwrap();
    assert_eq!(kanji_row.name, "📕 Kanji (0)");
    assert_eq!(kanji_row.path.0.len(), french_row.path.0.len() + 1);
    let kanji_path: Vec<usize> = kanji_row.path.0.iter().copied().collect();
    assert_eq!(kanji_path, vec![0, 2]);
    match root.at(DeckPath::new(vec![0, 2])).unwrap() {
        DeckNode::Deck { name, cards } => {
            assert_eq!(name, "Kanji");
            assert!(cards.is_empty());
        }
        DeckNode::DeckSet { .. } => panic!("Kanji is a deck"),
    }
}

#[test]
fn descending_removal_removes_selected_entries() {
    let mut set = letters();
    assert_eq!(set.remove_entries(&vec![1, 3]), Ok(()));
    assert_eq!(entry_names(&set), vec!["A".to_string(), "C".to_string()]);
}

#[test]
fn removal_ignores_selection_order_and_repeats() {
    let mut set = letters();
    assert_eq!(set.remove_entries(&vec![3, 1, 3]), Ok(()));
    assert_eq!(entry_names(&set), vec!["A".to_string(), "C".to_string()]);
}

#[test]
fn ascending_removal_would_shift_indices() {
    let mut v = vec!["A", "B", "C", "D"];
    v.remove(1);
    assert_eq!(v, vec!["A", "C", "D"]);
    assert!(3 >= v.len());
}

#[test]
fn empty_selection_needs_no_confirmation_and_removes_nothing() {
    assert!(!needs_confirmation(&vec![]));
    assert!(needs_confirmation(&vec![0]));
    let mut set = letters();
    assert_eq!(set.remove_entries(&vec![]), Ok(()));
    assert_eq!(
        entry_names(&set),
        vec!["A".to_string(), "B".to_string(), "C".to_string(), "D".to_string()]
    );
}

#[test]
fn removal_past_the_end_is_refused() {
    let mut set = letters();
    assert_eq!(set.remove_entries(&vec![0, 4]), Err(EditError::BadIndex));
    assert_eq!(entry_names(&set).len(), 4);
}

#[test]
fn set_edits_on_a_deck_are_refused() {
    let mut deck = DeckNode::new_deck("Vocab");
    assert_eq!(deck.add_deck("X".to_string()), Err(EditError::WrongKind));
    assert_eq!(deck.add_set("X".to_string()), Err(EditError::WrongKind));
    assert_eq!(deck.remove_entries(&vec![0]), Err(EditError::WrongKind));
    let mut set = DeckNode::new_set("S");
    assert_eq!(
        set.add_card("a".to_string(), "b".to_string()),
        Err(EditError::WrongKind)
    );
}

#[test]
fn stale_path_is_not_found() {
    let mut root = sample();
    let r = root.apply_at(DeckPath::new(vec![5]), EditOp::AddDeck("X".to_string()));
    assert_eq!(r, Err(EditError::NotFound));
    let r = root.apply_at(DeckPath::new(vec![1, 0]), EditOp::AddDeck("X".to_string()));
    assert_eq!(r, Err(EditError::NotFound));
    assert!(root.at(DeckPath::new(vec![0, 0, 0])).is_none());
}

#[test]
fn apply_at_adds_a_set_below_the_path() {
    let mut root = sample();
    let r = root.apply_at(DeckPath::new(vec![0]), EditOp::AddSet("Grammar".to_string()));
    assert_eq!(r, Ok(()));
    match root.at(DeckPath::new(vec![0, 2])).unwrap() {
        DeckNode::DeckSet {
            name,
            entries,
            expanded,
        } => {
            assert_eq!(name, "Grammar");
            assert!(entries.is_empty());
            assert!(*expanded);
        }
        DeckNode::Deck { .. } => panic!("Grammar is a set"),
    }
}

#[test]
fn rename_keeps_children() {
    let mut root = sample();
    root.rename("Everything".to_string());
    assert_eq!(root.display_name(), "📂 Everything (2)");
    assert_eq!(
        entry_names(&root),
        vec!["French".to_string(), "Comp Sci".to_string()]
    );
}

#[test]
fn card_edits() {
    let mut deck = DeckNode::deck(
        "Vocab",
        vec![Card::new("manger", "to eat"), Card::new("voir", "to see")],
    );
    assert_eq!(
        deck.edit_card(1, CardEdit::Front("regarder".to_string())),
        Ok(())
    );
    assert_eq!(
        deck.edit_card(0, CardEdit::Back("eat".to_string())),
        Ok(())
    );
    let day = CardDate::from_ymd(2024, 2, 29).unwrap();
    assert_eq!(deck.edit_card(0, CardEdit::Due(day)), Ok(()));
    let bad = CardDate {
        year: 2023,
        month: 2,
        day: 29,
    };
    assert_eq!(deck.edit_card(0, CardEdit::Due(bad)), Err(EditError::BadDate));
    assert_eq!(
        deck.edit_card(2, CardEdit::Front("x".to_string())),
        Err(EditError::BadIndex)
    );
    match &deck {
        DeckNode::Deck { cards, .. } => {
            assert_eq!(cards[0].front, "manger");
            assert_eq!(cards[0].back, "eat");
            assert_eq!(cards[0].due, day);
            assert_eq!(cards[1].front, "regarder");
            assert_eq!(cards[1].back, "to see");
        }
        DeckNode::DeckSet { .. } => panic!("a deck"),
    }
}

#[test]
fn add_and_remove_cards() {
    let mut deck = DeckNode::new_deck("Vocab");
    assert_eq!(deck.add_card("a".to_string(), "1".to_string()), Ok(()));
    assert_eq!(deck.add_card("b".to_string(), "2".to_string()), Ok(()));
    assert_eq!(deck.add_card("c".to_string(), "3".to_string()), Ok(()));
    assert_eq!(deck.display_name(), "📕 Vocab (3)");
    assert_eq!(deck.remove_cards(&vec![0, 2]), Ok(()));
    assert_eq!(deck.remove_cards(&vec![1]), Err(EditError::BadIndex));
    match &deck {
        DeckNode::Deck { cards, .. } => {
            assert_eq!(cards.len(), 1);
            assert_eq!(cards[0].front, "b");
        }
        DeckNode::DeckSet { .. } => panic!("a deck"),
    }
    let mut set = DeckNode::new_set("S");
    assert_eq!(set.remove_cards(&vec![]), Err(EditError::WrongKind));
}

#[test]
fn edit_session_choices_depend_on_kind_and_emptiness() {
    assert_eq!(
        DeckNode::new_set("S").edit_choices(),
        vec![
            EditChoice::AddDeck,
            EditChoice::AddSet,
            EditChoice::Rename,
            EditChoice::Back
        ]
    );
    assert_eq!(
        letters().edit_choices(),
        vec![
            EditChoice::AddDeck,
            EditChoice::AddSet,
            EditChoice::Rename,
            EditChoice::RemoveEntries,
            EditChoice::Back
        ]
    );
    assert_eq!(
        DeckNode::new_deck("D").edit_choices(),
        vec![EditChoice::AddCard, EditChoice::Rename, EditChoice::Back]
    );
    let deck = DeckNode::deck("D", vec![Card::new("a", "b")]);
    assert_eq!(
        deck.edit_choices(),
        vec![
            EditChoice::AddCard,
            EditChoice::EditCards,
            EditChoice::Rename,
            EditChoice::RemoveCards,
            EditChoice::Back
        ]
    );
}

#[test]
fn select_edit_changes_nothing_and_toggle_on_deck_is_noop() {
    let mut deck = DeckNode::new_deck("D");
    assert!(deck.prompt_select(NodeAction::Edit));
    assert!(!deck.prompt_select(NodeAction::ToggleExpanded));
    assert_eq!(deck.display_name(), "📕 D (0)");
    assert_eq!(deck.prompt_options().len(), 1);
}

#[test]
fn row_label_is_indented_by_depth() {
    let root = sample();
    let rows = root.prompt_options();
    assert_eq!(rows[0].label(), "📂 All Decks (2)");
    assert_eq!(rows[2].label(), "    📕 Vocab (4)");
    assert_eq!(rows[4].label(), format!("  {}", MANAGE_LABEL));
}

#[test]
fn label_counts_in_decimal() {
    let entries: Vec<DeckNode> = (0..12).map(|i| DeckNode::new_deck(&i.to_string())).collect();
    let mut set = DeckNode::set("Many", entries);
    assert_eq!(set.display_name(), "📂 Many (12)");
    set.toggle_expand();
    assert_eq!(set.display_name(), "📁 Many (12)");
    assert_eq!(set.prompt_options().len(), 1);
}

#[test]
fn numbered_lists_of_children_and_cards() {
    let root = sample();
    assert_eq!(
        root.entries_options(),
        vec!["1. 📂 French (2)".to_string(), "2. 📕 Comp Sci (0)".to_string()]
    );
    assert!(root.cards_options().is_empty());
    let vocab = root.at(DeckPath::new(vec![0, 0])).unwrap();
    let cards = vocab.cards_options();
    assert_eq!(cards.len(), 4);
    assert_eq!(cards[0], "1. 🃏 manger / to eat");
    assert_eq!(cards[3], "4. 🃏 gravir / to climb");
    assert!(vocab.entries_options().is_empty());
}

#[test]
fn removal_needs_a_confirmed_nonempty_selection() {
    assert!(removal_op(EditChoice::RemoveEntries, vec![1], false).is_none());
    assert!(removal_op(EditChoice::RemoveEntries, vec![], true).is_none());
    assert!(removal_op(EditChoice::Rename, vec![1], true).is_none());
    match removal_op(EditChoice::RemoveEntries, vec![3, 1], true) {
        Some(EditOp::RemoveEntries(sel)) => assert_eq!(sel, vec![3, 1]),
        _ => panic!("a removal of entries"),
    }
    match removal_op(EditChoice::RemoveCards, vec![0], true) {
        Some(EditOp::RemoveCards(sel)) => assert_eq!(sel, vec![0]),
        _ => panic!("a removal of cards"),
    }
}

#[test]
fn removal_shortens_by_the_number_of_positions() {
    let mut set = letters();
    assert_eq!(set.remove_entries(&vec![0, 2, 3]), Ok(()));
    assert_eq!(entry_names(&set), vec!["B".to_string()]);
}

#[test]
fn closing_row_follows_its_set_row() {
    let root = sample();
    let rows = root.prompt_options();
    for (k, row) in rows.iter().enumerate() {
        if row.name == MANAGE_LABEL {
            let node = root.at(row.path.clone()).unwrap();
            assert!(matches!(node, DeckNode::DeckSet { expanded: true, .. }));
            let earlier: Vec<usize> = row.path.0.iter().copied().collect();
            assert!(rows[..k].iter().any(|r| {
                let p: Vec<usize> = r.path.0.iter().copied().collect();
                p == earlier
                    && r.action == NodeAction::ToggleExpanded
                    && r.name == node.display_name()
            }));
        }
    }
}

#[test]
fn collapse_keeps_all_rows_outside_the_set() {
    let mut root = sample();
    let before = root.prompt_options();
    root.at_mut(DeckPath::new(vec![0])).unwrap().toggle_expand();
    let after = root.prompt_options();
    let p = vec![0usize];
    let kept: Vec<(Vec<usize>, NodeAction)> = before
        .iter()
        .map(|r| (r.path.0.iter().copied().collect::<Vec<usize>>(), r.action))
        .filter(|(path, action)| {
            let below = path.len() > p.len() && path[..p.len()] == p[..];
            let closing = *path == p && *action == NodeAction::Edit;
            !below && !closing
        })
        .collect();
    let now: Vec<(Vec<usize>, NodeAction)> = after
        .iter()
        .map(|r| (r.path.0.iter().copied().collect::<Vec<usize>>(), r.action))
        .collect();
    assert_eq!(now, kept);
}
