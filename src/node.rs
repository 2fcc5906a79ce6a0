use crate::card::Card;
use crate::util::{decimal, push_decimal};
use std::collections::VecDeque;
use vstd::prelude::*;
use vstd::string::*;

verus! {

/// A node of the study tree: a set that groups other nodes, shown expanded or
/// collapsed, or a deck that holds cards.
#[derive(Debug)]
pub enum DeckNode {
    DeckSet { name: String, entries: Vec<DeckNode>, expanded: bool },
    Deck { name: String, cards: Vec<Card> },
}

/// What choosing a node's menu row does.
#[derive(Clone, Copy, Debug, PartialEq, Eq, Structural)]
pub enum NodeAction {
    Edit,
    ToggleExpanded,
}

/// The position of a node below a root: the child index taken at each step down.
#[derive(Clone, Debug)]
pub struct DeckPath(pub VecDeque<usize>);

impl View for DeckPath {
    type V = Seq<usize>;

    open spec fn view(&self) -> Seq<usize> {
        self.0@
    }
}

impl DeckPath {
    /// The path that takes the indices of `path` in order.
    pub fn new(path: Vec<usize>) -> (r: DeckPath)
        ensures
            r@ == path@,
    {
        let mut q: VecDeque<usize> = VecDeque::new();
        let mut i: usize = 0;
        while i < path.len()
            invariant
                i <= path@.len(),
                q@ == path@.subrange(0, i as int),
            decreases path@.len() - i,
        {
            proof {
                assert(path@.subrange(0, i + 1) == path@.subrange(0, i as int).push(path@[i as int]));
            }
            q.push_back(path[i]);
            i = i + 1;
        }
        proof {
            assert(path@.subrange(0, i as int) == path@);
        }
        DeckPath(q)
    }
}

/// The icon of a set's label.
pub open spec fn set_icon(expanded: bool) -> Seq<char> {
    if expanded { "📂"@ } else { "📁"@ }
}

/// The count shown at the end of a label.
pub open spec fn count_suffix(n: nat) -> Seq<char> {
    " ("@ + decimal(n) + ")"@
}

impl DeckNode {
    /// The node's name.
    pub open spec fn name_of(self) -> Seq<char> {
        match self {
            DeckNode::DeckSet { name, .. } => name@,
            DeckNode::Deck { name, .. } => name@,
        }
    }

    /// The children of a set; nothing for a deck.
    pub open spec fn entries_of(self) -> Seq<DeckNode> {
        match self {
            DeckNode::DeckSet { entries, .. } => entries@,
            DeckNode::Deck { .. } => seq![],
        }
    }

    /// A set has no more children than a `Vec` can hold.
    pub proof fn lemma_entries_bounded(self)
        ensures
            self.entries_of().len() <= usize::MAX,
    {
        match self {
            DeckNode::DeckSet { entries, .. } => {
                vstd::std_specs::vec::axiom_spec_len(&entries);
            },
            DeckNode::Deck { .. } => {},
        }
    }

    /// The cards of a deck; nothing for a set.
    pub open spec fn cards_of(self) -> Seq<Card> {
        match self {
            DeckNode::DeckSet { .. } => seq![],
            DeckNode::Deck { cards, .. } => cards@,
        }
    }

    /// The label of the node in menus: for a set its icon, name and number of
    /// children; for a deck its icon, name and number of cards.
    pub open spec fn label(self) -> Seq<char> {
        match self {
            DeckNode::DeckSet { name, entries, expanded } => set_icon(expanded) + " "@ + name@
                + count_suffix(entries@.len()),
            DeckNode::Deck { name, cards } => "📕 "@ + name@ + count_suffix(cards@.len()),
        }
    }

    /// The action of the node's own menu row.
    pub open spec fn row_action(self) -> NodeAction {
        match self {
            DeckNode::DeckSet { .. } => NodeAction::ToggleExpanded,
            DeckNode::Deck { .. } => NodeAction::Edit,
        }
    }

    /// The node that `p` leads to from this one, if any: each step goes to a
    /// child of a set, and a path cannot go on through a deck.
    pub open spec fn resolve(self, p: Seq<usize>) -> Option<DeckNode>
        decreases p.len(),
    {
        if p.len() == 0 {
            Some(self)
        } else {
            match self {
                DeckNode::DeckSet { entries, .. } => if p[0] < entries@.len() {
                    entries@[p[0] as int].resolve(p.drop_first())
                } else {
                    None
                },
                DeckNode::Deck { .. } => None,
            }
        }
    }

    /// The node with its expanded flag flipped when it is a set; a deck as it is.
    pub open spec fn toggled(self) -> DeckNode {
        match self {
            DeckNode::DeckSet { name, entries, expanded } => DeckNode::DeckSet {
                name,
                entries,
                expanded: !expanded,
            },
            DeckNode::Deck { .. } => self,
        }
    }

    /// A set with this name and these children, shown expanded.
    pub fn set(name: &str, entries: Vec<DeckNode>) -> (r: DeckNode)
        ensures
            r matches DeckNode::DeckSet { name: n, entries: e, expanded: x } && n@ == name@ && e
                == entries && x,
    {
        DeckNode::DeckSet { name: name.to_owned(), entries, expanded: true }
    }

    /// A deck with this name and these cards.
    pub fn deck(name: &str, cards: Vec<Card>) -> (r: DeckNode)
        ensures
            r matches DeckNode::Deck { name: n, cards: c } && n@ == name@ && c == cards,
    {
        DeckNode::Deck { name: name.to_owned(), cards }
    }

    /// An empty set with this name, shown expanded.
    pub fn new_set(name: &str) -> (r: DeckNode)
        ensures
            r matches DeckNode::DeckSet { name: n, entries: e, expanded: x } && n@ == name@ && e@.len()
                == 0 && x,
    {
        DeckNode::set(name, Vec::new())
    }

    /// An empty deck with this name.
    pub fn new_deck(name: &str) -> (r: DeckNode)
        ensures
            r matches DeckNode::Deck { name: n, cards: c } && n@ == name@ && c@.len() == 0,
    {
        DeckNode::deck(name, Vec::new())
    }

    /// The label of the node in menus.
    pub fn display_name(&self) -> (r: String)
        ensures
            r@ == self.label(),
    {
        match self {
            DeckNode::DeckSet { name, entries, expanded } => {
                let mut r = if *expanded {
                    String::from_str("📂")
                } else {
                    String::from_str("📁")
                };
                r.append(" ");
                r.append(name.as_str());
                r.append(" (");
                push_decimal(&mut r, entries.len());
                r.append(")");
                r
            },
            DeckNode::Deck { name, cards } => {
                let mut r = String::from_str("📕 ");
                r.append(name.as_str());
                r.append(" (");
                push_decimal(&mut r, cards.len());
                r.append(")");
                r
            },
        }
    }
}

/// `after` is `before` with the node at path `p` replaced by `sub`: every set on
/// the way keeps its name, its expanded flag and its other children.
pub open spec fn replaced_at(before: DeckNode, after: DeckNode, p: Seq<usize>, sub: DeckNode) -> bool
    decreases p.len(),
{
    if p.len() == 0 {
        after == sub
    } else {
        match before {
            DeckNode::DeckSet { name: n1, entries: e1, expanded: x1 } => match after {
                DeckNode::DeckSet { name: n2, entries: e2, expanded: x2 } => {
                    &&& n1 == n2
                    &&& x1 == x2
                    &&& p[0] < e1@.len()
                    &&& e2@.len() == e1@.len()
                    &&& forall|j: int| 0 <= j < e1@.len() && j != p[0] ==> e2@[j] == e1@[j]
                    &&& replaced_at(e1@[p[0] as int], e2@[p[0] as int], p.drop_first(), sub)
                },
                DeckNode::Deck { .. } => false,
            },
            DeckNode::Deck { .. } => false,
        }
    }
}

impl DeckNode {
    pub(crate) fn at_from(&self, path: &VecDeque<usize>, k: usize) -> (r: Option<&DeckNode>)
        requires
            k <= path@.len(),
        ensures
            r.is_some() == self.resolve(path@.subrange(k as int, path@.len() as int)).is_some(),
            r.is_some() ==> *r.unwrap() == self.resolve(
                path@.subrange(k as int, path@.len() as int),
            ).unwrap(),
        decreases path@.len() - k,
    {
        let ghost rest = path@.subrange(k as int, path@.len() as int);
        if k == path.len() {
            return Some(self);
        }
        proof {
            assert(rest.drop_first() == path@.subrange(k + 1, path@.len() as int));
        }
        match self {
            DeckNode::DeckSet { entries, .. } => {
                let i = path[k];
                if i < entries.len() {
                    entries[i].at_from(path, k + 1)
                } else {
                    None
                }
            },
            DeckNode::Deck { .. } => None,
        }
    }

    fn at_mut_from(&mut self, path: &VecDeque<usize>, k: usize) -> (r: Option<&mut DeckNode>)
        requires
            k <= path@.len(),
        ensures
            r.is_some() == old(self).resolve(path@.subrange(k as int, path@.len() as int)).is_some(),
            r.is_none() ==> *final(self) == *old(self),
            r.is_some() ==> *r.unwrap() == old(self).resolve(
                path@.subrange(k as int, path@.len() as int),
            ).unwrap(),
            r.is_some() ==> replaced_at(
                *old(self),
                *final(self),
                path@.subrange(k as int, path@.len() as int),
                *final(r.unwrap()),
            ),
        decreases path@.len() - k,
    {
        let ghost rest = path@.subrange(k as int, path@.len() as int);
        if k == path.len() {
            return Some(self);
        }
        proof {
            assert(rest.drop_first() == path@.subrange(k + 1, path@.len() as int));
        }
        match self {
            DeckNode::DeckSet { entries, .. } => {
                let i = path[k];
                if i < entries.len() && entries[i].at_from(path, k + 1).is_some() {
                    let child = &mut entries[i];
                    child.at_mut_from(path, k + 1)
                } else {
                    None
                }
            },
            DeckNode::Deck { .. } => None,
        }
    }

    /// The node that `path` leads to from this one, if any.
    pub fn at(&self, path: DeckPath) -> (r: Option<&DeckNode>)
        ensures
            r.is_some() == self.resolve(path@).is_some(),
            r.is_some() ==> *r.unwrap() == self.resolve(path@).unwrap(),
    {
        proof {
            assert(path@.subrange(0, path@.len() as int) == path@);
        }
        self.at_from(&path.0, 0)
    }

    /// The node that `path` leads to from this one, if any, to be changed in place:
    /// the tree then holds whatever that node becomes.
    pub fn at_mut(&mut self, path: DeckPath) -> (r: Option<&mut DeckNode>)
        ensures
            r.is_some() == old(self).resolve(path@).is_some(),
            r.is_none() ==> *final(self) == *old(self),
            r.is_some() ==> *r.unwrap() == old(self).resolve(path@).unwrap(),
            r.is_some() ==> replaced_at(*old(self), *final(self), path@, *final(r.unwrap())),
    {
        proof {
            assert(path@.subrange(0, path@.len() as int) == path@);
        }
        self.at_mut_from(&path.0, 0)
    }

    /// Flips whether a set is shown expanded; a deck stays as it is.
    pub fn toggle_expand(&mut self)
        ensures
            *final(self) == old(self).toggled(),
    {
        match self {
            DeckNode::DeckSet { expanded, .. } => {
                *expanded = !*expanded;
            },
            DeckNode::Deck { .. } => {},
        }
    }

    /// Carries out the part of a chosen menu row that needs no further prompt: a
    /// toggle happens here, and `true` says that an edit session is to be opened.
    pub fn prompt_select(&mut self, action: NodeAction) -> (needs_edit: bool)
        ensures
            needs_edit == (action == NodeAction::Edit),
            action == NodeAction::ToggleExpanded ==> *final(self) == old(self).toggled(),
            action == NodeAction::Edit ==> *final(self) == *old(self),
    {
        match action {
            NodeAction::ToggleExpanded => {
                self.toggle_expand();
                false
            },
            NodeAction::Edit => true,
        }
    }
}

/// A path that resolves leads to a node that the tree holds in place: the tree
/// is itself with that node replaced by the node.
pub proof fn lemma_replaced_self(a: DeckNode, p: Seq<usize>, n: DeckNode)
    requires
        a.resolve(p) == Some(n),
    ensures
        replaced_at(a, a, p, n),
    decreases p.len(),
{
    if p.len() > 0 {
        match a {
            DeckNode::DeckSet { entries, .. } => {
                lemma_replaced_self(entries@[p[0] as int], p.drop_first(), n);
            },
            DeckNode::Deck { .. } => {},
        }
    }
}

/// After a replacement, the path leads to the node put in.
pub proof fn lemma_resolve_replaced(a: DeckNode, b: DeckNode, p: Seq<usize>, m: DeckNode)
    requires
        replaced_at(a, b, p, m),
    ensures
        b.resolve(p) == Some(m),
    decreases p.len(),
{
    if p.len() > 0 {
        match a {
            DeckNode::DeckSet { entries: e1, .. } => match b {
                DeckNode::DeckSet { entries: e2, .. } => {
                    lemma_resolve_replaced(e1@[p[0] as int], e2@[p[0] as int], p.drop_first(), m);
                },
                DeckNode::Deck { .. } => {},
            },
            DeckNode::Deck { .. } => {},
        }
    }
}

/// A replacement is undone by putting the old node back.
pub proof fn lemma_replaced_back(a: DeckNode, b: DeckNode, p: Seq<usize>, m: DeckNode, n: DeckNode)
    requires
        replaced_at(a, b, p, m),
        a.resolve(p) == Some(n),
    ensures
        replaced_at(b, a, p, n),
    decreases p.len(),
{
    if p.len() > 0 {
        match a {
            DeckNode::DeckSet { entries: e1, .. } => match b {
                DeckNode::DeckSet { entries: e2, .. } => {
                    lemma_replaced_back(e1@[p[0] as int], e2@[p[0] as int], p.drop_first(), m, n);
                },
                DeckNode::Deck { .. } => {},
            },
            DeckNode::Deck { .. } => {},
        }
    }
}

} // verus!
