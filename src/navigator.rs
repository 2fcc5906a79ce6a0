use crate::node::{
    count_suffix, set_icon,
    lemma_replaced_back, lemma_replaced_self, lemma_resolve_replaced, replaced_at, DeckNode, DeckPath,
    NodeAction,
};
use crate::card::card_label;
use crate::util::{decimal, push_decimal};
use vstd::prelude::*;
use vstd::string::*;

verus! {

/// Label of the row that follows an expanded set's children and opens the
/// set's own edit session.
pub const MANAGE_LABEL: &'static str = "  ⚙️";

/// A menu row as the contracts see it: the node's label (without indentation),
/// the path of the node it belongs to, and what choosing it does.
pub struct MenuRow {
    pub label: Seq<char>,
    pub path: Seq<usize>,
    pub action: NodeAction,
}

/// One row of the flattened menu.
#[derive(Clone, Debug)]
pub struct NodePromptOption {
    pub action: NodeAction,
    pub name: String,
    pub path: DeckPath,
}

impl View for NodePromptOption {
    type V = MenuRow;

    open spec fn view(&self) -> MenuRow {
        MenuRow { label: self.name@, path: self.path@, action: self.action }
    }
}

/// The rows as the contracts see them.
pub open spec fn row_views(s: Seq<NodePromptOption>) -> Seq<MenuRow> {
    s.map_values(|o: NodePromptOption| o@)
}

/// The row of a node itself.
pub open spec fn head_row(n: DeckNode, p: Seq<usize>) -> MenuRow {
    MenuRow { label: n.label(), path: p, action: n.row_action() }
}

/// The row that closes an expanded set's children.
pub open spec fn manage_row(p: Seq<usize>) -> MenuRow {
    MenuRow { label: MANAGE_LABEL@, path: p, action: NodeAction::Edit }
}

/// The rows of node `n` at path `p`, in pre-order: its own row, then for an
/// expanded set the rows of each child in order and a closing row.
pub open spec fn rows(n: DeckNode, p: Seq<usize>) -> Seq<MenuRow>
    decreases n, 0nat,
{
    match n {
        DeckNode::DeckSet { entries, expanded, .. } => if expanded {
            seq![head_row(n, p)] + child_rows(entries@, p, 0, entries@.len()) + seq![manage_row(p)]
        } else {
            seq![head_row(n, p)]
        },
        DeckNode::Deck { .. } => seq![head_row(n, p)],
    }
}

/// The rows of children `lo` to `hi - 1` of a set at path `p`.
pub open spec fn child_rows(es: Seq<DeckNode>, p: Seq<usize>, lo: nat, hi: nat) -> Seq<MenuRow>
    decreases es, hi,
{
    if hi <= lo || hi > es.len() {
        seq![]
    } else {
        child_rows(es, p, lo, (hi - 1) as nat) + rows(es[hi - 1], p.push((hi - 1) as usize))
    }
}

/// `depth` levels of indentation.
pub open spec fn indent(depth: nat) -> Seq<char>
    decreases depth,
{
    if depth == 0 {
        seq![]
    } else {
        indent((depth - 1) as nat) + "  "@
    }
}

impl NodePromptOption {
    /// The text of the row: one indentation level per step of its path, then
    /// its label.
    pub fn label(&self) -> (r: String)
        ensures
            r@ == indent(self.path@.len()) + self.name@,
    {
        let mut r = String::new();
        let depth = self.path.0.len();
        let mut i: usize = 0;
        while i < depth
            invariant
                i <= depth,
                depth == self.path@.len(),
                r@ == indent(i as nat),
            decreases depth - i,
        {
            r.append("  ");
            i = i + 1;
        }
        r.append(self.name.as_str());
        r
    }
}

fn copied(path: &Vec<usize>) -> (r: Vec<usize>)
    ensures
        r@ == path@,
{
    let mut r: Vec<usize> = Vec::new();
    let mut k: usize = 0;
    while k < path.len()
        invariant
            k <= path@.len(),
            r@ == path@.subrange(0, k as int),
        decreases path@.len() - k,
    {
        proof {
            assert(path@.subrange(0, k + 1) == path@.subrange(0, k as int).push(path@[k as int]));
        }
        r.push(path[k]);
        k = k + 1;
    }
    proof {
        assert(path@.subrange(0, k as int) == path@);
    }
    r
}

fn extended(path: &Vec<usize>, i: usize) -> (r: Vec<usize>)
    ensures
        r@ == path@.push(i),
{
    let mut r = copied(path);
    r.push(i);
    r
}

proof fn lemma_child_decreases(n: DeckNode, i: int)
    requires
        0 <= i < n.entries_of().len(),
    ensures
        decreases_to!(n => n.entries_of()[i]),
{
    match n {
        DeckNode::DeckSet { entries, .. } => {
            assert(decreases_to!(n => entries));
            assert(decreases_to!(entries => entries@));
            assert(decreases_to!(entries@ => entries@[i]));
        },
        DeckNode::Deck { .. } => {},
    }
}

fn push_row(options: &mut Vec<NodePromptOption>, row: NodePromptOption)
    ensures
        row_views(final(options)@) == row_views(old(options)@) + seq![row@],
{
    options.push(row);
    proof {
        assert(row_views(final(options)@) =~= row_views(old(options)@) + seq![row@]);
    }
}

fn build(node: &DeckNode, options: &mut Vec<NodePromptOption>, path: &Vec<usize>)
    ensures
        row_views(final(options)@) == row_views(old(options)@) + rows(*node, path@),
    decreases node,
{
    let ghost start = row_views(options@);
    let action = match node {
        DeckNode::DeckSet { .. } => NodeAction::ToggleExpanded,
        DeckNode::Deck { .. } => NodeAction::Edit,
    };
    push_row(
        options,
        NodePromptOption { action, name: node.display_name(), path: DeckPath::new(copied(path)) },
    );
    match node {
        DeckNode::DeckSet { name, entries, expanded } => {
            if *expanded {
                let mut i: usize = 0;
                while i < entries.len()
                    invariant
                        i <= entries@.len(),
                        *node == (DeckNode::DeckSet { name: *name, entries: *entries, expanded: *expanded }),
                        row_views(options@) == start + seq![head_row(*node, path@)] + child_rows(
                            entries@,
                            path@,
                            0,
                            i as nat,
                        ),
                    decreases entries@.len() - i,
                {
                    proof {
                        lemma_child_decreases(*node, i as int);
                    }
                    build(&entries[i], options, &extended(path, i));
                    i = i + 1;
                    proof {
                        assert(row_views(options@) =~= start + seq![head_row(*node, path@)]
                            + child_rows(entries@, path@, 0, i as nat));
                    }
                }
                push_row(
                    options,
                    NodePromptOption {
                        action: NodeAction::Edit,
                        name: String::from_str(MANAGE_LABEL),
                        path: DeckPath::new(copied(path)),
                    },
                );
                proof {
                    assert(row_views(options@) =~= start + rows(*node, path@));
                }
            } else {
                proof {
                    assert(row_views(options@) =~= start + rows(*node, path@));
                }
            }
        },
        DeckNode::Deck { .. } => {
            proof {
                assert(row_views(options@) =~= start + rows(*node, path@));
            }
        },
    }
}

impl DeckNode {
    /// The menu of this tree: the rows of every node that is shown, in
    /// pre-order, where the children of a collapsed set are not shown.
    pub fn prompt_options(&self) -> (r: Vec<NodePromptOption>)
        ensures
            row_views(r@) == rows(*self, seq![]),
    {
        let mut options: Vec<NodePromptOption> = Vec::new();
        let root: Vec<usize> = Vec::new();
        proof {
            assert(row_views(options@) =~= seq![]);
        }
        build(self, &mut options, &root);
        proof {
            assert(row_views(options@) =~= rows(*self, seq![]));
        }
        options
    }
}

/// Row `r` leads back to what it shows: its path resolves in `root` to a node
/// whose label and action are the row's, or, for the row that closes a set's
/// children, to that set.
pub open spec fn row_resolves(root: DeckNode, r: MenuRow) -> bool {
    match root.resolve(r.path) {
        Some(m) => (r.label == m.label() && r.action == m.row_action()) || (r == manage_row(r.path)
            && m is DeckSet),
        None => false,
    }
}

/// Every set on the way down `p` from `a` is expanded, so the node at `p` has a row.
pub open spec fn shown_at(a: DeckNode, p: Seq<usize>) -> bool
    decreases p.len(),
{
    if p.len() == 0 {
        true
    } else {
        match a {
            DeckNode::DeckSet { entries, expanded, .. } => expanded && p[0] < entries@.len()
                && shown_at(entries@[p[0] as int], p.drop_first()),
            DeckNode::Deck { .. } => false,
        }
    }
}

/// The rows of `a` (at path `base`) that come before the rows of the node at `p`.
pub open spec fn rows_before(a: DeckNode, base: Seq<usize>, p: Seq<usize>) -> Seq<MenuRow>
    decreases p.len(),
{
    if p.len() == 0 {
        seq![]
    } else {
        match a {
            DeckNode::DeckSet { entries, .. } => if p[0] < entries@.len() {
                seq![head_row(a, base)] + child_rows(entries@, base, 0, p[0] as nat) + rows_before(
                    entries@[p[0] as int],
                    base.push(p[0]),
                    p.drop_first(),
                )
            } else {
                seq![]
            },
            DeckNode::Deck { .. } => seq![],
        }
    }
}

/// The rows of `a` (at path `base`) that come after the rows of the node at `p`.
pub open spec fn rows_after(a: DeckNode, base: Seq<usize>, p: Seq<usize>) -> Seq<MenuRow>
    decreases p.len(),
{
    if p.len() == 0 {
        seq![]
    } else {
        match a {
            DeckNode::DeckSet { entries, .. } => if p[0] < entries@.len() {
                rows_after(entries@[p[0] as int], base.push(p[0]), p.drop_first()) + child_rows(
                    entries@,
                    base,
                    (p[0] + 1) as nat,
                    entries@.len(),
                ) + seq![manage_row(base)]
            } else {
                seq![]
            },
            DeckNode::Deck { .. } => seq![],
        }
    }
}

pub(crate) proof fn lemma_child_rows_split(es: Seq<DeckNode>, p: Seq<usize>, lo: nat, mid: nat, hi: nat)
    requires
        lo <= mid <= hi <= es.len(),
    ensures
        child_rows(es, p, lo, hi) == child_rows(es, p, lo, mid) + child_rows(es, p, mid, hi),
    decreases hi,
{
    if hi == mid {
        assert(child_rows(es, p, lo, hi) =~= child_rows(es, p, lo, mid) + child_rows(es, p, mid, hi));
    } else {
        lemma_child_rows_split(es, p, lo, mid, (hi - 1) as nat);
        assert(child_rows(es, p, lo, hi) =~= child_rows(es, p, lo, mid) + child_rows(es, p, mid, hi));
    }
}

pub(crate) proof fn lemma_child_rows_single(es: Seq<DeckNode>, p: Seq<usize>, k: nat)
    requires
        k < es.len(),
    ensures
        child_rows(es, p, k, k + 1) == rows(es[k as int], p.push(k as usize)),
{
    assert(child_rows(es, p, k, k) == Seq::<MenuRow>::empty());
    assert(child_rows(es, p, k, k + 1) =~= rows(es[k as int], p.push(k as usize)));
}

pub(crate) proof fn lemma_child_rows_congruent(
    es1: Seq<DeckNode>,
    es2: Seq<DeckNode>,
    p: Seq<usize>,
    lo: nat,
    hi: nat,
)
    requires
        hi <= es1.len(),
        hi <= es2.len(),
        forall|k: int|
            lo <= k < hi ==> rows(es1[k], p.push(k as usize)) == rows(es2[k], p.push(k as usize)),
    ensures
        child_rows(es1, p, lo, hi) == child_rows(es2, p, lo, hi),
    decreases hi,
{
    if hi > lo {
        lemma_child_rows_congruent(es1, es2, p, lo, (hi - 1) as nat);
    }
}

pub(crate) proof fn lemma_resolve_push(root: DeckNode, p: Seq<usize>, i: usize)
    ensures
        root.resolve(p.push(i)) == (match root.resolve(p) {
            Some(DeckNode::DeckSet { entries, .. }) => if i < entries@.len() {
                Some(entries@[i as int])
            } else {
                None
            },
            _ => None,
        }),
    decreases p.len(),
{
    if p.len() == 0 {
        assert(p.push(i).drop_first() =~= Seq::<usize>::empty());
        assert(p.push(i)[0] == i);
        match root {
            DeckNode::DeckSet { entries, .. } => {
                if i < entries@.len() {
                    assert(entries@[i as int].resolve(Seq::<usize>::empty()) == Some(entries@[i as int]));
                }
            },
            DeckNode::Deck { .. } => {},
        }
    } else {
        assert(p.push(i).drop_first() =~= p.drop_first().push(i));
        assert(p.push(i)[0] == p[0]);
        match root {
            DeckNode::DeckSet { entries, .. } => {
                if p[0] < entries@.len() {
                    lemma_resolve_push(entries@[p[0] as int], p.drop_first(), i);
                }
            },
            DeckNode::Deck { .. } => {},
        }
    }
}

/// If row `k` of `s` is the row that closes a set's children, its path leads
/// to an expanded set whose own row comes earlier in `s`, with the same path.
pub open spec fn closing_row_matches(root: DeckNode, s: Seq<MenuRow>, k: int) -> bool {
    s[k].label == MANAGE_LABEL@ ==> match root.resolve(s[k].path) {
        Some(m) => (m matches DeckNode::DeckSet { expanded, .. } && expanded) && exists|j: int|
            0 <= j < k && #[trigger] s[j] == head_row(m, s[k].path),
        None => false,
    }
}

proof fn lemma_label_not_closing(n: DeckNode)
    ensures
        n.label() != MANAGE_LABEL@,
{
    reveal_strlit("  ⚙️");
    reveal_strlit("📂");
    reveal_strlit("📁");
    reveal_strlit("📕");
    assert(MANAGE_LABEL@ == "  ⚙️"@);
    assert(MANAGE_LABEL@[0] == ' ');
    match n {
        DeckNode::DeckSet { name, entries, expanded } => {
            let icon = set_icon(expanded);
            assert(icon.len() == 1 && icon[0] != ' ');
            let rest = " "@ + name@ + count_suffix(entries@.len());
            assert(n.label() == icon + rest);
            assert((icon + rest)[0] == icon[0]);
        },
        DeckNode::Deck { name, cards } => {
            let head = "📕 "@;
            reveal_strlit("📕 ");
            let rest = name@ + count_suffix(cards@.len());
            assert(n.label() == head + rest);
            assert((head + rest)[0] == head[0]);
        },
    }
    assert(n.label()[0] != MANAGE_LABEL@[0]);
}

proof fn lemma_rows_resolve(root: DeckNode, n: DeckNode, p: Seq<usize>)
    requires
        root.resolve(p) == Some(n),
    ensures
        forall|j: int| 0 <= j < rows(n, p).len() ==> row_resolves(root, #[trigger] rows(n, p)[j]),
        forall|j: int| 0 <= j < rows(n, p).len() ==> closing_row_matches(root, rows(n, p), j),
    decreases n, 0nat,
{
    lemma_label_not_closing(n);
    let s = rows(n, p);
    match n {
        DeckNode::DeckSet { entries, expanded, .. } => {
            if expanded {
                let c = child_rows(entries@, p, 0, entries@.len());
                lemma_child_rows_resolve(root, n, entries@, p, entries@.len());
                assert(s == seq![head_row(n, p)] + c + seq![manage_row(p)]);
                assert forall|j: int| 0 <= j < s.len() implies row_resolves(root, #[trigger] s[j])
                    && closing_row_matches(root, s, j) by {
                    if j == 0 {
                        assert(s[0] == head_row(n, p));
                    } else if j < 1 + c.len() {
                        assert(s[j] == c[j - 1]);
                        assert(closing_row_matches(root, c, j - 1));
                        if s[j].label == MANAGE_LABEL@ {
                            let m = root.resolve(s[j].path).unwrap();
                            let w = choose|w: int| 0 <= w < j - 1 && #[trigger] c[w] == head_row(m, c[j - 1].path);
                            assert(s[w + 1] == c[w]);
                        }
                    } else {
                        assert(s[j] == manage_row(p));
                        assert(s[0] == head_row(n, p));
                    }
                }
            } else {
                assert(s[0] == head_row(n, p));
            }
        },
        DeckNode::Deck { .. } => {
            assert(s[0] == head_row(n, p));
        },
    }
}

proof fn lemma_child_rows_resolve(
    root: DeckNode,
    n: DeckNode,
    es: Seq<DeckNode>,
    p: Seq<usize>,
    hi: nat,
)
    requires
        root.resolve(p) == Some(n),
        n is DeckSet,
        n.entries_of() == es,
        hi <= es.len(),
    ensures
        forall|j: int|
            0 <= j < child_rows(es, p, 0, hi).len() ==> row_resolves(
                root,
                #[trigger] child_rows(es, p, 0, hi)[j],
            ),
        forall|j: int|
            0 <= j < child_rows(es, p, 0, hi).len() ==> closing_row_matches(
                root,
                child_rows(es, p, 0, hi),
                j,
            ),
    decreases es, hi,
{
    if hi > 0 {
        let k = (hi - 1) as nat;
        n.lemma_entries_bounded();
        lemma_child_rows_resolve(root, n, es, p, k);
        lemma_resolve_push(root, p, k as usize);
        lemma_rows_resolve(root, es[k as int], p.push(k as usize));
        let a = child_rows(es, p, 0, k);
        let b = rows(es[k as int], p.push(k as usize));
        let s = child_rows(es, p, 0, hi);
        assert(s == a + b);
        assert forall|j: int| 0 <= j < s.len() implies row_resolves(root, #[trigger] s[j])
            && closing_row_matches(root, s, j) by {
            if j < a.len() {
                assert(s[j] == a[j]);
                assert(closing_row_matches(root, a, j));
                if s[j].label == MANAGE_LABEL@ {
                    let m = root.resolve(s[j].path).unwrap();
                    let w = choose|w: int| 0 <= w < j && #[trigger] a[w] == head_row(m, a[j].path);
                    assert(s[w] == a[w]);
                }
            } else {
                assert(s[j] == b[j - a.len()]);
                assert(closing_row_matches(root, b, j - a.len()));
                if s[j].label == MANAGE_LABEL@ {
                    let m = root.resolve(s[j].path).unwrap();
                    let w = choose|w: int|
                        0 <= w < j - a.len() && #[trigger] b[w] == head_row(m, b[j - a.len()].path);
                    assert(s[w + a.len()] == b[w]);
                }
            }
        }
    }
}

/// Each row of the menu of `root` leads back, through its path, to the node
/// whose label and action it shows. A row that closes a set's children leads
/// to that set, which is expanded and whose own row, with the same path,
/// comes earlier in the menu.
pub proof fn lemma_path_round_trip(root: DeckNode, j: int)
    requires
        0 <= j < rows(root, seq![]).len(),
    ensures
        row_resolves(root, rows(root, seq![])[j]),
        closing_row_matches(root, rows(root, seq![]), j),
{
    lemma_rows_resolve(root, root, seq![]);
}

/// The rows of the nodes below `n`, at path `p`, that follow its own row.
pub open spec fn descendant_rows(n: DeckNode, p: Seq<usize>) -> Seq<MenuRow> {
    rows(n, p).drop_first()
}

proof fn lemma_rows_replaced_unique(
    c: DeckNode,
    x: DeckNode,
    y: DeckNode,
    p: Seq<usize>,
    m: DeckNode,
    base: Seq<usize>,
)
    requires
        replaced_at(c, x, p, m),
        replaced_at(c, y, p, m),
    ensures
        rows(x, base) == rows(y, base),
    decreases p.len(),
{
    if p.len() > 0 {
        match c {
            DeckNode::DeckSet { entries: e1, .. } => match x {
                DeckNode::DeckSet { entries: e2, .. } => match y {
                    DeckNode::DeckSet { entries: e3, .. } => {
                        let i = p[0];
                        lemma_rows_replaced_unique(
                            e1@[i as int],
                            e2@[i as int],
                            e3@[i as int],
                            p.drop_first(),
                            m,
                            base.push(i),
                        );
                        assert forall|k: int| 0 <= k < e2@.len() implies rows(
                            e2@[k],
                            base.push(k as usize),
                        ) == rows(e3@[k], base.push(k as usize)) by {
                            if k != i {
                                assert(e2@[k] == e1@[k]);
                                assert(e3@[k] == e1@[k]);
                            }
                        }
                        lemma_child_rows_congruent(e2@, e3@, base, 0, e2@.len());
                    },
                    DeckNode::Deck { .. } => {},
                },
                DeckNode::Deck { .. } => {},
            },
            DeckNode::Deck { .. } => {},
        }
    }
}

proof fn lemma_children_around(e1: Seq<DeckNode>, e2: Seq<DeckNode>, base: Seq<usize>, i: nat)
    requires
        e1.len() == e2.len(),
        i < e1.len(),
        forall|j: int| 0 <= j < e1.len() && j != i ==> e2[j] == e1[j],
    ensures
        child_rows(e2, base, 0, e2.len()) == child_rows(e1, base, 0, i) + rows(
            e2[i as int],
            base.push(i as usize),
        ) + child_rows(e1, base, i + 1, e1.len()),
{
    let len = e1.len();
    lemma_child_rows_split(e2, base, 0, i, len);
    lemma_child_rows_split(e2, base, i, i + 1, len);
    lemma_child_rows_single(e2, base, i);
    assert forall|k: int| 0 <= k < len && k != i implies rows(e1[k], base.push(k as usize)) == rows(
        e2[k],
        base.push(k as usize),
    ) by {
        assert(e2[k] == e1[k]);
    }
    lemma_child_rows_congruent(e1, e2, base, 0, i);
    lemma_child_rows_congruent(e1, e2, base, i + 1, len);
    assert(child_rows(e2, base, 0, len) =~= child_rows(e1, base, 0, i) + rows(
        e2[i as int],
        base.push(i as usize),
    ) + child_rows(e1, base, i + 1, len));
}

#[verifier::rlimit(60)]
pub(crate) proof fn lemma_rows_decompose(a: DeckNode, b: DeckNode, p: Seq<usize>, m: DeckNode, base: Seq<usize>)
    requires
        replaced_at(a, b, p, m),
        shown_at(a, p),
    ensures
        rows(b, base) == rows_before(a, base, p) + rows(m, base + p) + rows_after(a, base, p),
    decreases p.len(),
{
    if p.len() == 0 {
        assert(base + p =~= base);
        assert(rows(b, base) =~= rows_before(a, base, p) + rows(m, base + p) + rows_after(a, base, p));
    } else {
        match a {
            DeckNode::DeckSet { entries: e1, .. } => match b {
                DeckNode::DeckSet { entries: e2, .. } => {
                    let i = p[0];
                    let len = e1@.len();
                    let rest = p.drop_first();
                    let cb = base.push(i);
                    lemma_rows_decompose(e1@[i as int], e2@[i as int], rest, m, cb);
                    assert(cb + rest =~= base + p);
                    let c_before = child_rows(e1@, base, 0, i as nat);
                    let c_after = child_rows(e1@, base, (i + 1) as nat, len);
                    let sub = rows(e2@[i as int], cb);
                    lemma_children_around(e1@, e2@, base, i as nat);
                    assert(head_row(a, base) == head_row(b, base));
                    let before = rows_before(e1@[i as int], cb, rest);
                    let after = rows_after(e1@[i as int], cb, rest);
                    assert(rows(b, base) == seq![head_row(b, base)] + child_rows(e2@, base, 0, len)
                        + seq![manage_row(base)]);
                    assert(rows_before(a, base, p) == seq![head_row(a, base)] + c_before + before);
                    assert(rows_after(a, base, p) == after + c_after + seq![manage_row(base)]);
                    assert(sub == before + rows(m, base + p) + after);
                    assert(rows(b, base) =~= rows_before(a, base, p) + rows(m, base + p) + rows_after(
                        a,
                        base,
                        p,
                    ));
                },
                DeckNode::Deck { .. } => {},
            },
            DeckNode::Deck { .. } => {},
        }
    }
}

proof fn lemma_rows_hidden(a: DeckNode, b: DeckNode, p: Seq<usize>, m: DeckNode, base: Seq<usize>)
    requires
        replaced_at(a, b, p, m),
        !shown_at(a, p),
    ensures
        rows(b, base) == rows(a, base),
    decreases p.len(),
{
    match a {
        DeckNode::DeckSet { entries: e1, expanded, .. } => match b {
            DeckNode::DeckSet { entries: e2, .. } => {
                assert(head_row(a, base) == head_row(b, base));
                if expanded {
                    let i = p[0];
                    lemma_rows_hidden(e1@[i as int], e2@[i as int], p.drop_first(), m, base.push(i));
                    assert forall|k: int| 0 <= k < e1@.len() implies rows(
                        e1@[k],
                        base.push(k as usize),
                    ) == rows(e2@[k], base.push(k as usize)) by {
                        if k != i {
                            assert(e2@[k] == e1@[k]);
                        }
                    }
                    lemma_child_rows_congruent(e1@, e2@, base, 0, e1@.len());
                }
            },
            DeckNode::Deck { .. } => {},
        },
        DeckNode::Deck { .. } => {},
    }
}

/// Collapsing a shown, expanded set takes exactly the rows of its descendants
/// out of the menu: the rows before and after them keep their order, labels and
/// paths, and the set keeps its own row, now with the collapsed icon. A set
/// that is not shown (some set above it is collapsed) leaves the menu as it is.
pub proof fn lemma_collapse_hides_descendants(
    root: DeckNode,
    collapsed: DeckNode,
    p: Seq<usize>,
    n: DeckNode,
)
    requires
        root.resolve(p) == Some(n),
        n matches DeckNode::DeckSet { expanded, .. } && expanded,
        replaced_at(root, collapsed, p, n.toggled()),
    ensures
        !shown_at(root, p) ==> rows(collapsed, seq![]) == rows(root, seq![]),
        shown_at(root, p) ==> rows(root, seq![]) == rows_before(root, seq![], p) + seq![head_row(n, p)] + descendant_rows(
            n,
            p,
        ) + rows_after(root, seq![], p),
        shown_at(root, p) ==> rows(collapsed, seq![]) == rows_before(root, seq![], p) + seq![head_row(n.toggled(), p)]
            + rows_after(root, seq![], p),
{
    let e: Seq<usize> = seq![];
    if !shown_at(root, p) {
        lemma_rows_hidden(root, collapsed, p, n.toggled(), e);
    } else {
        assert(e + p =~= p);
        lemma_replaced_self(root, p, n);
        lemma_rows_decompose(root, root, p, n, e);
        lemma_rows_decompose(root, collapsed, p, n.toggled(), e);
        assert(rows(n, p) =~= seq![head_row(n, p)] + descendant_rows(n, p));
        assert(rows(n.toggled(), p) =~= seq![head_row(n.toggled(), p)]);
        assert(rows(root, e) =~= rows_before(root, e, p) + seq![head_row(n, p)] + descendant_rows(
            n,
            p,
        ) + rows_after(root, e, p));
        assert(rows(collapsed, e) =~= rows_before(root, e, p) + seq![head_row(n.toggled(), p)]
            + rows_after(root, e, p));
    }
}

/// Toggling the node at a path twice gives the node back, and the menu of the
/// tree is what it was before.
pub proof fn lemma_toggle_twice_restores(
    root: DeckNode,
    once: DeckNode,
    twice: DeckNode,
    p: Seq<usize>,
    n: DeckNode,
)
    requires
        root.resolve(p) == Some(n),
        replaced_at(root, once, p, n.toggled()),
        replaced_at(once, twice, p, n.toggled().toggled()),
    ensures
        n.toggled().toggled() == n,
        twice.resolve(p) == Some(n),
        rows(twice, seq![]) == rows(root, seq![]),
{
    assert(n.toggled().toggled() == n);
    lemma_resolve_replaced(once, twice, p, n);
    lemma_replaced_back(root, once, p, n.toggled(), n);
    lemma_rows_replaced_unique(once, twice, root, p, n, seq![]);
}

/// The `i`-th item (counting from zero) of a list, as shown: its number
/// counting from one, then its label.
pub open spec fn numbered(i: nat, label: Seq<char>) -> Seq<char> {
    decimal(i + 1) + ". "@ + label
}

fn numbered_label(i: usize, label: &str) -> (r: String)
    requires
        i < usize::MAX,
    ensures
        r@ == numbered(i as nat, label@),
{
    let mut r = String::new();
    push_decimal(&mut r, i + 1);
    r.append(". ");
    r.append(label);
    r
}

impl DeckNode {
    /// The list of a deck's cards, numbered from one, as an opened deck shows
    /// it; empty for a set.
    pub fn cards_options(&self) -> (r: Vec<String>)
        ensures
            r@.len() == self.cards_of().len(),
            forall|i: int|
                0 <= i < r@.len() ==> #[trigger] r@[i]@ == numbered(
                    i as nat,
                    card_label(self.cards_of()[i].front@, self.cards_of()[i].back@),
                ),
    {
        let mut r: Vec<String> = Vec::new();
        match self {
            DeckNode::DeckSet { .. } => {},
            DeckNode::Deck { cards, .. } => {
                let mut i: usize = 0;
                while i < cards.len()
                    invariant
                        i <= cards@.len(),
                        cards@ == self.cards_of(),
                        r@.len() == i,
                        forall|j: int|
                            0 <= j < i ==> #[trigger] r@[j]@ == numbered(
                                j as nat,
                                card_label(cards@[j].front@, cards@[j].back@),
                            ),
                    decreases cards@.len() - i,
                {
                    let label = cards[i].display_name();
                    r.push(numbered_label(i, label.as_str()));
                    i = i + 1;
                }
            },
        }
        r
    }

    /// The list of a set's children, numbered from one, each with its label;
    /// empty for a deck.
    pub fn entries_options(&self) -> (r: Vec<String>)
        ensures
            r@.len() == self.entries_of().len(),
            forall|i: int|
                0 <= i < r@.len() ==> #[trigger] r@[i]@ == numbered(
                    i as nat,
                    self.entries_of()[i].label(),
                ),
    {
        let mut r: Vec<String> = Vec::new();
        match self {
            DeckNode::DeckSet { entries, .. } => {
                let mut i: usize = 0;
                while i < entries.len()
                    invariant
                        i <= entries@.len(),
                        entries@ == self.entries_of(),
                        r@.len() == i,
                        forall|j: int|
                            0 <= j < i ==> #[trigger] r@[j]@ == numbered(j as nat, entries@[j].label()),
                    decreases entries@.len() - i,
                {
                    let label = entries[i].display_name();
                    r.push(numbered_label(i, label.as_str()));
                    i = i + 1;
                }
            },
            DeckNode::Deck { .. } => {},
        }
        r
    }
}

/// `path` starts with `q`.
pub open spec fn extends(q: Seq<usize>, path: Seq<usize>) -> bool {
    q.len() <= path.len() && path.subrange(0, q.len() as int) == q
}

/// Whether row `r` stays in the menu when the set at path `t` is collapsed: it
/// is not a row below the set, nor the row that closes the set's children.
pub open spec fn kept_after_collapse(t: Seq<usize>, r: MenuRow) -> bool {
    !(t.len() < r.path.len() && extends(t, r.path)) && !(r.path == t && r.action
        == NodeAction::Edit)
}

/// A row reduced to what says where it leads and what it does.
pub open spec fn path_action(r: MenuRow) -> (Seq<usize>, NodeAction) {
    (r.path, r.action)
}

proof fn lemma_filter_all(s: Seq<MenuRow>, pred: spec_fn(MenuRow) -> bool)
    requires
        forall|j: int| 0 <= j < s.len() ==> pred(#[trigger] s[j]),
    ensures
        s.filter(pred) == s,
    decreases s.len(),
{
    reveal(Seq::filter);
    if s.len() > 0 {
        lemma_filter_all(s.drop_last(), pred);
        assert(s.drop_last().push(s.last()) == s);
    }
}

proof fn lemma_filter_none(s: Seq<MenuRow>, pred: spec_fn(MenuRow) -> bool)
    requires
        forall|j: int| 0 <= j < s.len() ==> !pred(#[trigger] s[j]),
    ensures
        s.filter(pred) == Seq::<MenuRow>::empty(),
{
    assert(s.all(|x: MenuRow| !pred(x)));
    s.lemma_all_neg_filter_empty(pred);
}

proof fn lemma_rows_extend(n: DeckNode, q: Seq<usize>)
    ensures
        forall|j: int| 0 <= j < rows(n, q).len() ==> extends(q, #[trigger] rows(n, q)[j].path),
        forall|j: int|
            0 < j < rows(n, q).len() ==> (#[trigger] rows(n, q)[j]).path.len() > q.len() || rows(
                n,
                q,
            )[j] == manage_row(q),
    decreases n, 0nat,
{
    let s = rows(n, q);
    assert(q.subrange(0, q.len() as int) == q);
    n.lemma_entries_bounded();
    match n {
        DeckNode::DeckSet { entries, expanded, .. } => {
            if expanded {
                let c = child_rows(entries@, q, 0, entries@.len());
                lemma_child_rows_extend(entries@, q, 0, entries@.len());
                assert(s == seq![head_row(n, q)] + c + seq![manage_row(q)]);
                assert forall|j: int| 0 <= j < s.len() implies extends(q, #[trigger] s[j].path) && (0
                    < j ==> s[j].path.len() > q.len() || s[j] == manage_row(q)) by {
                    if 1 <= j < 1 + c.len() {
                        assert(s[j] == c[j - 1]);
                    }
                }
            }
        },
        DeckNode::Deck { .. } => {},
    }
}

proof fn lemma_child_rows_extend(es: Seq<DeckNode>, q: Seq<usize>, lo: nat, hi: nat)
    requires
        es.len() <= usize::MAX,
    ensures
        forall|j: int|
            0 <= j < child_rows(es, q, lo, hi).len() ==> {
                let path = (#[trigger] child_rows(es, q, lo, hi)[j]).path;
                extends(q, path) && path.len() > q.len() && lo <= path[q.len() as int] < hi
            },
    decreases es, hi,
{
    if hi > lo && hi <= es.len() {
        let k = (hi - 1) as nat;
        lemma_child_rows_extend(es, q, lo, k);
        let qk = q.push(k as usize);
        lemma_rows_extend(es[k as int], qk);
        let a = child_rows(es, q, lo, k);
        let b = rows(es[k as int], qk);
        let s = child_rows(es, q, lo, hi);
        assert(s == a + b);
        assert forall|j: int| 0 <= j < s.len() implies {
            let path = (#[trigger] s[j]).path;
            extends(q, path) && path.len() > q.len() && lo <= path[q.len() as int] < hi
        } by {
            if j < a.len() {
                assert(s[j] == a[j]);
            } else {
                assert(s[j] == b[j - a.len()]);
                let path = b[j - a.len()].path;
                assert(extends(qk, path));
                assert(path.subrange(0, qk.len() as int)[q.len() as int] == qk[q.len() as int]);
                assert(path.subrange(0, q.len() as int) =~= path.subrange(0, qk.len() as int).subrange(
                    0,
                    q.len() as int,
                ));
                assert(qk.subrange(0, q.len() as int) =~= q);
                assert(lo <= k < hi);
            }
        }
    }
}

proof fn lemma_sibling_kept(b: Seq<usize>, t: Seq<usize>, r: MenuRow)
    requires
        b.len() < t.len(),
        extends(b, r.path),
        r.path.len() > b.len(),
        r.path[b.len() as int] != t[b.len() as int],
    ensures
        kept_after_collapse(t, r),
{
    if t.len() < r.path.len() && extends(t, r.path) {
        assert(r.path.subrange(0, t.len() as int)[b.len() as int] == r.path[b.len() as int]);
    }
}

proof fn lemma_around_kept(a: DeckNode, b: Seq<usize>, p: Seq<usize>)
    ensures
        forall|j: int|
            0 <= j < rows_before(a, b, p).len() ==> kept_after_collapse(
                b + p,
                #[trigger] rows_before(a, b, p)[j],
            ),
        forall|j: int|
            0 <= j < rows_after(a, b, p).len() ==> kept_after_collapse(
                b + p,
                #[trigger] rows_after(a, b, p)[j],
            ),
    decreases p.len(),
{
    if p.len() > 0 {
        match a {
            DeckNode::DeckSet { entries, .. } => {
                let i = p[0];
                if i < entries@.len() {
                    let t = b + p;
                    let rest = p.drop_first();
                    let bi = b.push(i);
                    assert(bi + rest =~= t);
                    assert(t[b.len() as int] == i);
                    lemma_around_kept(entries@[i as int], bi, rest);
                    let len = entries@.len();
                    a.lemma_entries_bounded();
                    lemma_child_rows_extend(entries@, b, 0, i as nat);
                    lemma_child_rows_extend(entries@, b, (i + 1) as nat, len);
                    let c1 = child_rows(entries@, b, 0, i as nat);
                    let c2 = child_rows(entries@, b, (i + 1) as nat, len);
                    let before = rows_before(entries@[i as int], bi, rest);
                    let after = rows_after(entries@[i as int], bi, rest);
                    assert(!(b == t));
                    assert(kept_after_collapse(t, head_row(a, b)));
                    assert(kept_after_collapse(t, manage_row(b)));
                    let sb = rows_before(a, b, p);
                    assert(sb == seq![head_row(a, b)] + c1 + before);
                    assert forall|j: int| 0 <= j < sb.len() implies kept_after_collapse(
                        t,
                        #[trigger] sb[j],
                    ) by {
                        if j == 0 {
                            assert(sb[0] == head_row(a, b));
                        } else if j < 1 + c1.len() {
                            assert(sb[j] == c1[j - 1]);
                            lemma_sibling_kept(b, t, c1[j - 1]);
                        } else {
                            assert(sb[j] == before[j - 1 - c1.len()]);
                        }
                    }
                    let sa = rows_after(a, b, p);
                    assert(sa == after + c2 + seq![manage_row(b)]);
                    assert forall|j: int| 0 <= j < sa.len() implies kept_after_collapse(
                        t,
                        #[trigger] sa[j],
                    ) by {
                        if j < after.len() {
                            assert(sa[j] == after[j]);
                        } else if j < after.len() + c2.len() {
                            assert(sa[j] == c2[j - after.len()]);
                            lemma_sibling_kept(b, t, c2[j - after.len()]);
                        } else {
                            assert(sa[j] == manage_row(b));
                        }
                    }
                }
            },
            DeckNode::Deck { .. } => {},
        }
    }
}

/// Collapsing a shown, expanded set at path `p` leaves, of the menu's rows,
/// exactly those that are neither below the set nor the row closing its
/// children, in their order and with their paths and actions.
pub proof fn lemma_collapse_filters_rows(
    root: DeckNode,
    collapsed: DeckNode,
    p: Seq<usize>,
    n: DeckNode,
)
    requires
        root.resolve(p) == Some(n),
        n matches DeckNode::DeckSet { expanded, .. } && expanded,
        shown_at(root, p),
        replaced_at(root, collapsed, p, n.toggled()),
    ensures
        rows(collapsed, seq![]).map_values(|r: MenuRow| path_action(r)) == rows(root, seq![]).filter(
            |r: MenuRow| kept_after_collapse(p, r),
        ).map_values(|r: MenuRow| path_action(r)),
{
    let e: Seq<usize> = seq![];
    let keep = |r: MenuRow| kept_after_collapse(p, r);
    let pa = |r: MenuRow| path_action(r);
    lemma_collapse_hides_descendants(root, collapsed, p, n);
    assert(e + p =~= p);
    lemma_around_kept(root, e, p);
    let before = rows_before(root, e, p);
    let after = rows_after(root, e, p);
    let d = descendant_rows(n, p);
    lemma_descendants_dropped(n, p);
    lemma_filter_around(before, head_row(n, p), d, after, keep);
    assert(pa(head_row(n, p)) == pa(head_row(n.toggled(), p)));
    assert(rows(collapsed, e).map_values(pa) =~= rows(root, e).filter(keep).map_values(pa));
}

proof fn lemma_descendants_dropped(n: DeckNode, p: Seq<usize>)
    requires
        n is DeckSet,
    ensures
        kept_after_collapse(p, head_row(n, p)),
        forall|j: int|
            0 <= j < descendant_rows(n, p).len() ==> !kept_after_collapse(
                p,
                #[trigger] descendant_rows(n, p)[j],
            ),
{
    let d = descendant_rows(n, p);
    lemma_rows_extend(n, p);
    assert forall|j: int| 0 <= j < d.len() implies !kept_after_collapse(p, #[trigger] d[j]) by {
        assert(d[j] == rows(n, p)[j + 1]);
        if d[j].path.len() <= p.len() {
            assert(d[j] == manage_row(p));
        }
    }
}

proof fn lemma_filter_around(
    before: Seq<MenuRow>,
    h: MenuRow,
    d: Seq<MenuRow>,
    after: Seq<MenuRow>,
    keep: spec_fn(MenuRow) -> bool,
)
    requires
        forall|j: int| 0 <= j < before.len() ==> keep(#[trigger] before[j]),
        forall|j: int| 0 <= j < after.len() ==> keep(#[trigger] after[j]),
        forall|j: int| 0 <= j < d.len() ==> !keep(#[trigger] d[j]),
        keep(h),
    ensures
        (before + seq![h] + d + after).filter(keep) == before + seq![h] + after,
{
    lemma_filter_all(before, keep);
    lemma_filter_all(after, keep);
    lemma_filter_none(d, keep);
    lemma_filter_all(seq![h], keep);
    Seq::filter_distributes_over_add(before + seq![h] + d, after, keep);
    Seq::filter_distributes_over_add(before + seq![h], d, keep);
    Seq::filter_distributes_over_add(before, seq![h], keep);
    assert((before + seq![h] + d + after).filter(keep) =~= before + seq![h] + after);
}

} // verus!
