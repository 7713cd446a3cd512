//! The shift-reduce engine's data: parse-tree nodes, the resumable parser
//! status, recovery checkpoints and parse errors.

use vstd::prelude::*;
use crate::lr1::{Action, ActionEntry, GotoEntry, LR1Parser, atab_of, gtab_of, has_akey, has_gkey};
use crate::grammar::eps_sym;
use crate::types::{SpecSym, Token, empty_symbol, end_symbol, sym_eq, sym_of};

verus! {

/// The first action row at `(s, x)`, in table order: the row the engine
/// reads.
pub open spec fn akey_first(t: Seq<ActionEntry>, s: usize, x: SpecSym) -> Option<int>
    decreases t.len(),
{
    if t.len() == 0 {
        None
    } else if t[0].state == s && sym_of(t[0].symbol) == x {
        Some(0int)
    } else {
        match akey_first(t.drop_first(), s, x) {
            Some(i) => Some(i + 1),
            None => None,
        }
    }
}

/// The first goto row at `(s, x)`, in table order.
pub open spec fn gkey_first(t: Seq<GotoEntry>, s: usize, x: SpecSym) -> Option<int>
    decreases t.len(),
{
    if t.len() == 0 {
        None
    } else if t[0].state == s && sym_of(t[0].symbol) == x {
        Some(0int)
    } else {
        match gkey_first(t.drop_first(), s, x) {
            Some(i) => Some(i + 1),
            None => None,
        }
    }
}

/// A position matching the key, with none before it, is the first row.
proof fn lemma_akey_first_at(t: Seq<ActionEntry>, s: usize, x: SpecSym, i: int)
    requires
        0 <= i < t.len(),
        t[i].state == s && sym_of(t[i].symbol) == x,
        forall|j: int| 0 <= j < i ==> !((#[trigger] t[j]).state == s && sym_of(t[j].symbol) == x),
    ensures
        akey_first(t, s, x) == Some(i),
    decreases i,
{
    if i == 0 {
    } else {
        assert(t[0].state != s || sym_of(t[0].symbol) != x);
        assert forall|j: int|
            0 <= j < i - 1 implies !((#[trigger] t.drop_first()[j]).state == s && sym_of(
            t.drop_first()[j].symbol,
        ) == x) by {
            assert(t.drop_first()[j] == t[j + 1]);
        };
        assert(t.drop_first()[i - 1] == t[i]);
        lemma_akey_first_at(t.drop_first(), s, x, i - 1);
    }
}

/// No matching row means no first row.
proof fn lemma_akey_first_none(t: Seq<ActionEntry>, s: usize, x: SpecSym)
    requires
        forall|j: int|
            0 <= j < t.len() ==> !((#[trigger] t[j]).state == s && sym_of(t[j].symbol) == x),
    ensures
        akey_first(t, s, x) is None,
    decreases t.len(),
{
    if t.len() == 0 {
    } else {
        assert forall|j: int|
            0 <= j < t.drop_first().len() implies !((#[trigger] t.drop_first()[j]).state == s
            && sym_of(t.drop_first()[j].symbol) == x) by {
            assert(t.drop_first()[j] == t[j + 1]);
        };
        lemma_akey_first_none(t.drop_first(), s, x);
    }
}

/// A position matching the key, with none before it, is the first row.
proof fn lemma_gkey_first_at(t: Seq<GotoEntry>, s: usize, x: SpecSym, i: int)
    requires
        0 <= i < t.len(),
        t[i].state == s && sym_of(t[i].symbol) == x,
        forall|j: int| 0 <= j < i ==> !((#[trigger] t[j]).state == s && sym_of(t[j].symbol) == x),
    ensures
        gkey_first(t, s, x) == Some(i),
    decreases i,
{
    if i == 0 {
    } else {
        assert(t[0].state != s || sym_of(t[0].symbol) != x);
        assert forall|j: int|
            0 <= j < i - 1 implies !((#[trigger] t.drop_first()[j]).state == s && sym_of(
            t.drop_first()[j].symbol,
        ) == x) by {
            assert(t.drop_first()[j] == t[j + 1]);
        };
        assert(t.drop_first()[i - 1] == t[i]);
        lemma_gkey_first_at(t.drop_first(), s, x, i - 1);
    }
}

/// No matching row means no first row.
proof fn lemma_gkey_first_none(t: Seq<GotoEntry>, s: usize, x: SpecSym)
    requires
        forall|j: int|
            0 <= j < t.len() ==> !((#[trigger] t[j]).state == s && sym_of(t[j].symbol) == x),
    ensures
        gkey_first(t, s, x) is None,
    decreases t.len(),
{
    if t.len() == 0 {
    } else {
        assert forall|j: int|
            0 <= j < t.drop_first().len() implies !((#[trigger] t.drop_first()[j]).state == s
            && sym_of(t.drop_first()[j].symbol) == x) by {
            assert(t.drop_first()[j] == t[j + 1]);
        };
        lemma_gkey_first_none(t.drop_first(), s, x);
    }
}

/// A parse-tree node: a leaf wraps a shifted token, an internal node wraps
/// a production head with the reduced children in their original order.
#[derive(Debug)]
pub struct TreeNode {
    pub element: Token,
    pub children: Option<Vec<TreeNode>>,
}

impl TreeNode {
    /// A structurally identical copy of the tree: same shape, same
    /// tokens, same child order.
    pub fn deep_copy(&self) -> (r: TreeNode)
        ensures
            r.element == self.element,
            tree_view(r) == tree_view(*self),
        decreases *self,
    {
        let element = self.element.duplicate();
        match &self.children {
            None => TreeNode { element, children: None },
            Some(cs) => {
                let mut new_cs: Vec<TreeNode> = Vec::new();
                let mut k: usize = 0;
                while k < cs.len()
                    invariant
                        k <= cs@.len(),
                        self.children == Some(*cs),
                        new_cs@.len() == k,
                        forall|x: int|
                            0 <= x < k ==> tree_view(#[trigger] new_cs@[x]) == tree_view(cs@[x]),
                    decreases cs@.len() - k,
                {
                    proof {
                        broadcast use vstd::std_specs::vec::axiom_vec_decreases_to_view;

                        assert(decreases_to!(*self => self.children));
                        assert(decreases_to!(self.children => self.children->0));
                        assert(self.children->0 == *cs);
                        assert(decreases_to!(*cs => cs@));
                        assert(decreases_to!(cs@ => cs@[k as int]));
                    }
                    new_cs.push(cs[k].deep_copy());
                    k += 1;
                }
                proof {
                    lemma_forest_pointwise(new_cs@, cs@);
                }
                TreeNode { element, children: Some(new_cs) }
            },
        }
    }
}

/// The shape a tree node stands for: its token and, for an internal
/// node, the shapes of its children in order.
pub struct SpecTree {
    pub element: Token,
    pub children: Option<Seq<SpecTree>>,
}

/// The shape of one node.
pub open spec fn tree_view(t: TreeNode) -> SpecTree
    decreases t,
    via tree_view_decreases
{
    SpecTree {
        element: t.element,
        children: match t.children {
            None => None,
            Some(cs) => Some(forest_view(cs@)),
        },
    }
}

/// The shapes of a sequence of nodes.
pub open spec fn forest_view(s: Seq<TreeNode>) -> Seq<SpecTree>
    decreases s,
{
    if s.len() == 0 {
        Seq::empty()
    } else {
        seq![tree_view(s[0])] + forest_view(s.drop_first())
    }
}

#[via_fn]
proof fn tree_view_decreases(t: TreeNode) {
    broadcast use vstd::std_specs::vec::axiom_vec_decreases_to_view;

    match t.children {
        None => {},
        Some(cs) => {
            assert(decreases_to!(t => t.children));
            assert(decreases_to!(t.children => t.children->0));
            assert(t.children->0 == cs);
            assert(decreases_to!(cs => cs@));
        },
    }
}

/// A forest's shapes go node by node.
proof fn lemma_forest_index(s: Seq<TreeNode>)
    ensures
        forest_view(s).len() == s.len(),
        forall|i: int| 0 <= i < s.len() ==> forest_view(s)[i] == tree_view(#[trigger] s[i]),
    decreases s.len(),
{
    if s.len() == 0 {
    } else {
        lemma_forest_index(s.drop_first());
        assert forall|i: int| 0 <= i < s.len() implies forest_view(s)[i] == tree_view(
            #[trigger] s[i],
        ) by {
            if i > 0 {
                assert(s.drop_first()[i - 1] == s[i]);
                assert(forest_view(s)[i] == forest_view(s.drop_first())[i - 1]);
            }
        };
    }
}

/// Nodes with pointwise equal shapes form forests of equal shape.
proof fn lemma_forest_pointwise(s1: Seq<TreeNode>, s2: Seq<TreeNode>)
    requires
        s1.len() == s2.len(),
        forall|i: int| 0 <= i < s1.len() ==> tree_view(#[trigger] s1[i]) == tree_view(s2[i]),
    ensures
        forest_view(s1) == forest_view(s2),
{
    lemma_forest_index(s1);
    lemma_forest_index(s2);
    assert forall|i: int|
        0 <= i < forest_view(s1).len() implies forest_view(s1)[i] == forest_view(s2)[i] by {
        assert(forest_view(s1)[i] == tree_view(s1[i]));
        assert(forest_view(s2)[i] == tree_view(s2[i]));
    };
    assert(forest_view(s1) =~= forest_view(s2));
}

/// The non-marker tokens at a tree's leaves, left to right: a leaf
/// contributes its token unless it is the empty marker, an internal node
/// the fringes of its children in order.
pub open spec fn tree_fringe(t: SpecTree) -> Seq<Token>
    decreases t,
    via tree_fringe_decreases
{
    match t.children {
        None => if sym_of(t.element) == eps_sym() {
            Seq::empty()
        } else {
            seq![t.element]
        },
        Some(cs) => forest_fringe(cs),
    }
}

/// The leaf fringes of a sequence of trees, concatenated in order.
pub open spec fn forest_fringe(s: Seq<SpecTree>) -> Seq<Token>
    decreases s,
{
    if s.len() == 0 {
        Seq::empty()
    } else {
        tree_fringe(s[0]) + forest_fringe(s.drop_first())
    }
}

#[via_fn]
proof fn tree_fringe_decreases(t: SpecTree) {
    match t.children {
        None => {},
        Some(cs) => {
            assert(decreases_to!(t => t.children));
            assert(decreases_to!(t.children => t.children->0));
            assert(t.children->0 == cs);
        },
    }
}

/// The fringe of the trees a node stack stands for.
pub open spec fn stack_fringe(s: Seq<TreeNode>) -> Seq<Token> {
    forest_fringe(forest_view(s))
}

/// A token sequence with the empty markers dropped.
pub open spec fn sans_marks(s: Seq<Token>) -> Seq<Token>
    decreases s.len(),
{
    if s.len() == 0 {
        Seq::empty()
    } else if sym_of(s[0]) == eps_sym() {
        sans_marks(s.drop_first())
    } else {
        seq![s[0]] + sans_marks(s.drop_first())
    }
}

/// Dropping markers distributes over appending one token.
proof fn lemma_sans_snoc(s: Seq<Token>, t: Token)
    ensures
        sans_marks(s.push(t)) == sans_marks(s) + (if sym_of(t) == eps_sym() {
            Seq::<Token>::empty()
        } else {
            seq![t]
        }),
    decreases s.len(),
{
    if s.len() == 0 {
        assert(s.push(t)[0] == t);
        assert(s.push(t).drop_first() =~= Seq::<Token>::empty());
        assert(sans_marks(s.push(t).drop_first()) == Seq::<Token>::empty());
        assert(sans_marks(s) == Seq::<Token>::empty());
        if sym_of(t) == eps_sym() {
            assert(sans_marks(s.push(t)) =~= sans_marks(s) + Seq::<Token>::empty());
        } else {
            assert(sans_marks(s.push(t)) == seq![t] + sans_marks(s.push(t).drop_first()));
            assert(seq![t] + Seq::<Token>::empty() =~= seq![t]);
            assert(sans_marks(s) + seq![t] =~= seq![t]);
        }
    } else {
        assert(s.push(t)[0] == s[0]);
        assert(s.push(t).drop_first() =~= s.drop_first().push(t));
        lemma_sans_snoc(s.drop_first(), t);
        assert(seq![s[0]] + (sans_marks(s.drop_first()) + (if sym_of(t) == eps_sym() {
            Seq::<Token>::empty()
        } else {
            seq![t]
        })) =~= (seq![s[0]] + sans_marks(s.drop_first())) + (if sym_of(t) == eps_sym() {
            Seq::<Token>::empty()
        } else {
            seq![t]
        }));
    }
}

/// A forest's fringe splits at any point.
proof fn lemma_forest_fringe_split(s: Seq<SpecTree>, m: int)
    requires
        0 <= m <= s.len(),
    ensures
        forest_fringe(s) == forest_fringe(s.take(m)) + forest_fringe(s.skip(m)),
    decreases m,
{
    if m == 0 {
        assert(s.take(0) =~= Seq::<SpecTree>::empty());
        assert(s.skip(0) =~= s);
        assert(forest_fringe(s.take(0)) + forest_fringe(s.skip(0)) =~= forest_fringe(s));
    } else {
        assert(s.len() > 0);
        assert(s.take(m)[0] == s[0]);
        assert(s.take(m).drop_first() =~= s.drop_first().take(m - 1));
        assert(s.skip(m) =~= s.drop_first().skip(m - 1));
        lemma_forest_fringe_split(s.drop_first(), m - 1);
        assert(forest_fringe(s) == tree_fringe(s[0]) + forest_fringe(s.drop_first()));
        assert(tree_fringe(s[0]) + (forest_fringe(s.drop_first().take(m - 1)) + forest_fringe(
            s.drop_first().skip(m - 1),
        )) =~= (tree_fringe(s[0]) + forest_fringe(s.drop_first().take(m - 1))) + forest_fringe(
            s.drop_first().skip(m - 1),
        ));
    }
}

/// Appending one tree appends its fringe.
proof fn lemma_forest_fringe_snoc(s: Seq<SpecTree>, t: SpecTree)
    ensures
        forest_fringe(s.push(t)) == forest_fringe(s) + tree_fringe(t),
    decreases s.len(),
{
    if s.len() == 0 {
        assert(s.push(t).drop_first() =~= Seq::<SpecTree>::empty());
        assert(forest_fringe(s) + tree_fringe(t) =~= tree_fringe(t) + Seq::<Token>::empty());
        assert(tree_fringe(t) + Seq::<Token>::empty() =~= tree_fringe(t));
        assert(forest_fringe(s.push(t)) == tree_fringe(t) + forest_fringe(
            s.push(t).drop_first(),
        ));
        assert(tree_fringe(t) + forest_fringe(s.push(t).drop_first()) =~= tree_fringe(t));
    } else {
        assert(s.push(t)[0] == s[0]);
        assert(s.push(t).drop_first() =~= s.drop_first().push(t));
        lemma_forest_fringe_snoc(s.drop_first(), t);
        assert(tree_fringe(s[0]) + (forest_fringe(s.drop_first()) + tree_fringe(t)) =~= (
        tree_fringe(s[0]) + forest_fringe(s.drop_first())) + tree_fringe(t));
    }
}

/// Pushing one node appends its tree shape.
proof fn lemma_forest_view_snoc(s: Seq<TreeNode>, t: TreeNode)
    ensures
        forest_view(s.push(t)) == forest_view(s).push(tree_view(t)),
{
    lemma_forest_index(s.push(t));
    lemma_forest_index(s);
    assert forall|i: int|
        0 <= i < forest_view(s.push(t)).len() implies forest_view(s.push(t))[i] == forest_view(
        s,
    ).push(tree_view(t))[i] by {
        if i < s.len() {
            assert(s.push(t)[i] == s[i]);
            assert(forest_view(s.push(t))[i] == tree_view(s[i]));
        } else {
            assert(s.push(t)[i] == t);
        }
    };
    assert(forest_view(s.push(t)) =~= forest_view(s).push(tree_view(t)));
}

/// Shapes of a prefix and a suffix are the prefix and suffix of the
/// shapes.
proof fn lemma_forest_view_take_skip(s: Seq<TreeNode>, m: int)
    requires
        0 <= m <= s.len(),
    ensures
        forest_view(s.take(m)) == forest_view(s).take(m),
        forest_view(s.skip(m)) == forest_view(s).skip(m),
{
    lemma_forest_index(s);
    lemma_forest_index(s.take(m));
    lemma_forest_index(s.skip(m));
    assert forall|i: int|
        0 <= i < forest_view(s.take(m)).len() implies forest_view(s.take(m))[i] == forest_view(
        s,
    ).take(m)[i] by {
        assert(s.take(m)[i] == s[i]);
        assert(forest_view(s.take(m))[i] == tree_view(s[i]));
    };
    assert(forest_view(s.take(m)) =~= forest_view(s).take(m));
    assert forall|i: int|
        0 <= i < forest_view(s.skip(m)).len() implies forest_view(s.skip(m))[i] == forest_view(
        s,
    ).skip(m)[i] by {
        assert(s.skip(m)[i] == s[m + i]);
        assert(forest_view(s.skip(m))[i] == tree_view(s[m + i]));
    };
    assert(forest_view(s.skip(m)) =~= forest_view(s).skip(m));
}

/// The engine's complete resumable state: the state stack and the node
/// stack, always kept in lock-step.
#[derive(Debug)]
pub struct Status {
    pub state_stack: Vec<usize>,
    pub node_stack: Vec<TreeNode>,
}

/// The stacks run in lock-step and are never empty.
pub open spec fn status_wf(s: Status) -> bool {
    &&& s.state_stack@.len() == s.node_stack@.len()
    &&& s.state_stack@.len() >= 1
}

impl Status {
    /// The initial status: state 0 under the end-marker sentinel node.
    pub fn init() -> (s: Self)
        ensures
            s.state_stack@ == seq![0usize],
            s.node_stack@.len() == 1,
            sym_of(s.node_stack@[0].element) == (SpecSym { terminal: false, name: "#"@ }),
            s.node_stack@[0].children is None,
            status_wf(s),
    {
        let mut state_stack: Vec<usize> = Vec::new();
        state_stack.push(0);
        let mut node_stack: Vec<TreeNode> = Vec::new();
        node_stack.push(
            TreeNode {
                element: Token::new_not_terminal("#".to_owned(), None),
                children: None,
            },
        );
        proof {
            assert(state_stack@ =~= seq![0usize]);
        }
        Self { state_stack, node_stack }
    }

    /// A status with the same stacks: the state stack equal, the node
    /// stack of the same tree shapes.
    pub fn snapshot(&self) -> (s: Status)
        ensures
            s.state_stack@ == self.state_stack@,
            s.node_stack@.len() == self.node_stack@.len(),
            forest_view(s.node_stack@) == forest_view(self.node_stack@),
            status_wf(*self) ==> status_wf(s),
    {
        let mut state_stack: Vec<usize> = Vec::new();
        let mut k: usize = 0;
        while k < self.state_stack.len()
            invariant
                k <= self.state_stack@.len(),
                state_stack@.len() == k,
                forall|x: int| 0 <= x < k ==> state_stack@[x] == self.state_stack@[x],
            decreases self.state_stack@.len() - k,
        {
            state_stack.push(self.state_stack[k]);
            k += 1;
        }
        proof {
            assert(state_stack@ =~= self.state_stack@);
        }
        let mut node_stack: Vec<TreeNode> = Vec::new();
        let mut j: usize = 0;
        while j < self.node_stack.len()
            invariant
                j <= self.node_stack@.len(),
                node_stack@.len() == j,
                forall|x: int|
                    0 <= x < j ==> tree_view(#[trigger] node_stack@[x]) == tree_view(
                        self.node_stack@[x],
                    ),
            decreases self.node_stack@.len() - j,
        {
            node_stack.push(self.node_stack[j].deep_copy());
            j += 1;
        }
        proof {
            lemma_forest_pointwise(node_stack@, self.node_stack@);
        }
        Self { state_stack, node_stack }
    }
}

impl Default for Status {
    /// The initial status: state 0 under the sentinel node.
    fn default() -> (s: Self)
        ensures
            s.state_stack@ == seq![0usize],
            s.node_stack@.len() == 1,
            sym_of(s.node_stack@[0].element) == (SpecSym { terminal: false, name: "#"@ }),
            s.node_stack@[0].children is None,
            status_wf(s),
    {
        Self::init()
    }
}

/// The delimiter class of a token, as the recovery checkpoints see it:
/// statement separator, scope openers and closers, or none of these.
#[derive(Debug, Clone, Copy, PartialEq, Eq, Structural)]
pub enum Delimiter {
    Semi,
    OpenParen,
    CloseParen,
    OpenBrace,
    CloseBrace,
    OpenBracket,
    CloseBracket,
    Default,
}

/// The delimiter class of a symbol name.
pub open spec fn spec_delimiter(n: Seq<char>) -> Delimiter {
    if n == "';'"@ {
        Delimiter::Semi
    } else if n == "'('"@ {
        Delimiter::OpenParen
    } else if n == "')'"@ {
        Delimiter::CloseParen
    } else if n == "'{'"@ {
        Delimiter::OpenBrace
    } else if n == "'}'"@ {
        Delimiter::CloseBrace
    } else if n == "'['"@ {
        Delimiter::OpenBracket
    } else if n == "']'"@ {
        Delimiter::CloseBracket
    } else {
        Delimiter::Default
    }
}

impl Delimiter {
    /// The delimiter class of a token.
    pub fn from_token(v: &Token) -> (d: Delimiter)
        ensures
            d == spec_delimiter(sym_of(*v).name),
    {
        if v.value == "';'".to_owned() {
            Delimiter::Semi
        } else if v.value == "'('".to_owned() {
            Delimiter::OpenParen
        } else if v.value == "')'".to_owned() {
            Delimiter::CloseParen
        } else if v.value == "'{'".to_owned() {
            Delimiter::OpenBrace
        } else if v.value == "'}'".to_owned() {
            Delimiter::CloseBrace
        } else if v.value == "'['".to_owned() {
            Delimiter::OpenBracket
        } else if v.value == "']'".to_owned() {
            Delimiter::CloseBracket
        } else {
            Delimiter::Default
        }
    }

    /// Whether the token is any recognised delimiter.
    pub fn is_delimiter(&self) -> (r: bool)
        ensures
            r == (*self != Delimiter::Default),
    {
        self != &Self::Default
    }

    /// Whether the delimiter ends a region: a statement separator or a
    /// scope closer.
    pub fn is_limiter(&self) -> (r: bool)
        ensures
            r == (*self == Delimiter::Semi || *self == Delimiter::CloseParen || *self
                == Delimiter::CloseBrace || *self == Delimiter::CloseBracket),
    {
        matches!(
            self,
            Delimiter::Semi
                | Delimiter::CloseParen
                | Delimiter::CloseBrace
                | Delimiter::CloseBracket
        )
    }
}

/// A recovery checkpoint: the delimiter that opened it and the status
/// snapshot to restore.
#[derive(Debug)]
pub struct Partition {
    pub partition_head: Delimiter,
    pub status: Status,
}

impl Default for Partition {
    /// A checkpoint of the initial status under no delimiter.
    fn default() -> (p: Self)
        ensures
            p.partition_head == Delimiter::Default,
            status_wf(p.status),
    {
        Self { partition_head: Delimiter::Default, status: Status::init() }
    }
}

/// The checkpoint stack.
#[derive(Debug)]
pub struct PartitionTable {
    pub table: Vec<Partition>,
}

/// Every checkpointed status is well formed.
pub open spec fn part_table_wf(t: PartitionTable) -> bool {
    forall|x: int| 0 <= x < t.table@.len() ==> status_wf((#[trigger] t.table@[x]).status)
}

/// The delimiters that stack a checkpoint: openers and the statement
/// separator.
pub open spec fn stacks_checkpoint(d: Delimiter) -> bool {
    d == Delimiter::Semi || d == Delimiter::OpenParen || d == Delimiter::OpenBrace || d
        == Delimiter::OpenBracket
}

/// The delimiters that pop their region's checkpoints: the closers.
pub open spec fn pops_checkpoint(d: Delimiter) -> bool {
    d == Delimiter::CloseParen || d == Delimiter::CloseBrace || d == Delimiter::CloseBracket
}

/// Whether the most recent checkpoint is a statement separator.
pub open spec fn top_is_semi(t: PartitionTable) -> bool {
    t.table@.len() > 0 && t.table@[t.table@.len() - 1].partition_head == Delimiter::Semi
}

/// Whether a symbol name is a region-ending delimiter: the statement
/// separator or a scope closer.
pub open spec fn limits(n: Seq<char>) -> bool {
    spec_delimiter(n) == Delimiter::Semi || spec_delimiter(n) == Delimiter::CloseParen
        || spec_delimiter(n) == Delimiter::CloseBrace || spec_delimiter(n)
        == Delimiter::CloseBracket
}

/// The state stack a checkpoint restore yields: the most recent
/// checkpoint's, or the initial stack when none is left.
pub open spec fn restored_stack(parts: Seq<Partition>) -> Seq<usize> {
    if parts.len() > 0 {
        parts[parts.len() - 1].status.state_stack@
    } else {
        seq![0usize]
    }
}

/// What one resynchronization scan guarantees.  Starting behind the
/// unexpected token at `p0` with state stack `stack0` and checkpoints
/// `parts0`, the read position moves to `p1`, the first position after
/// `p0` at which the scan can end: the end of the stream, or a
/// region-ending delimiter (the last checkpoint's state stack is
/// restored), or a token for which the action table has a row at the
/// current top state (the stack is kept).  No position in between
/// qualified for either exit.
pub open spec fn recover_scan_ok(
    at: Seq<ActionEntry>,
    toks: Seq<Token>,
    stack0: Seq<usize>,
    parts0: Seq<Partition>,
    p0: int,
    p1: int,
    stack1: Seq<usize>,
) -> bool {
    &&& p0 < p1 <= toks.len()
    &&& stack0.len() > 0
    &&& forall|q: int|
        p0 < q < p1 ==> !limits(sym_of(#[trigger] toks[q]).name) && !has_akey(
            atab_of(at),
            stack0[stack0.len() - 1] as int,
            sym_of(toks[q]),
        )
    &&& {
        ||| (p1 == toks.len() && stack1 == stack0)
        ||| (p1 < toks.len() && limits(sym_of(toks[p1]).name) && stack1 == restored_stack(parts0))
        ||| (p1 < toks.len() && !limits(sym_of(toks[p1]).name) && has_akey(
            atab_of(at),
            stack0[stack0.len() - 1] as int,
            sym_of(toks[p1]),
        ) && stack1 == stack0)
    }
}

/// The kind of a parse error: a symbol that is missing, one that is
/// extra, or an unexpected symbol.
#[derive(Debug, Clone)]
pub enum ErrorType {
    Missing(String),
    Extra(String),
    Unknown(String),
}

/// A recorded parse error: its kind, carrying the offending symbol's
/// name, and the token-stream position where it was found.
#[derive(Debug, Clone)]
pub struct ParserError {
    pub error_type: ErrorType,
    pub error_pos: usize,
}

impl PartitionTable {
    /// An empty checkpoint stack.
    pub fn new() -> (t: Self)
        ensures
            t.table@.len() == 0,
            part_table_wf(t),
    {
        Self { table: Vec::new() }
    }

    /// The delimiter of the most recent checkpoint, or the default class
    /// when none is left.
    pub fn get_last_token(&self) -> (d: Delimiter)
        ensures
            self.table@.len() == 0 ==> d == Delimiter::Default,
            self.table@.len() > 0 ==> d == self.table@[self.table@.len() - 1].partition_head,
    {
        if let Some(v) = self.table.last() {
            v.partition_head
        } else {
            Delimiter::Default
        }
    }

    /// The status of the most recent checkpoint, or the initial status
    /// when none is left; both stacks of the checkpoint are restored.
    pub fn get_last_status(&self) -> (s: Status)
        requires
            part_table_wf(*self),
        ensures
            status_wf(s),
            self.table@.len() > 0 ==> s.state_stack@ == self.table@[self.table@.len()
                - 1].status.state_stack@ && forest_view(s.node_stack@) == forest_view(
                self.table@[self.table@.len() - 1].status.node_stack@,
            ),
            self.table@.len() == 0 ==> s.state_stack@.len() == 1 && s.state_stack@[0] == 0usize
                && s.node_stack@.len() == 1 && s.node_stack@[0].children is None && sym_of(
                s.node_stack@[0].element,
            ) == (SpecSym { terminal: false, name: "#"@ }),
    {
        if self.table.len() > 0 {
            self.table[self.table.len() - 1].status.snapshot()
        } else {
            Status::init()
        }
    }

    /// Folds a new checkpoint in: openers and statement separators stack,
    /// a separator replacing an immediately preceding separator; closers
    /// pop their region, a separator checkpoint below it included.
    pub fn update(&mut self, partition: Partition)
        requires
            part_table_wf(*old(self)),
            status_wf(partition.status),
        ensures
            part_table_wf(*final(self)),
            partition.partition_head == Delimiter::Default ==> final(self).table@ == old(
                self,
            ).table@,
            stacks_checkpoint(partition.partition_head) ==> final(self).table@ == (if top_is_semi(
                *old(self),
            ) {
                old(self).table@.drop_last()
            } else {
                old(self).table@
            }).push(partition),
            pops_checkpoint(partition.partition_head) ==> final(self).table@ == (if top_is_semi(
                *old(self),
            ) {
                if old(self).table@.len() >= 2 {
                    old(self).table@.take(old(self).table@.len() - 2)
                } else {
                    Seq::empty()
                }
            } else {
                if old(self).table@.len() >= 1 {
                    old(self).table@.drop_last()
                } else {
                    old(self).table@
                }
            }),
    {
        let token = partition.partition_head;
        match token {
            Delimiter::Semi | Delimiter::OpenParen | Delimiter::OpenBrace
                | Delimiter::OpenBracket => {
                if self.get_last_token() == Delimiter::Semi {
                    self.table.pop();
                    self.table.push(partition);
                } else {
                    self.table.push(partition);
                }
            },
            Delimiter::CloseParen | Delimiter::CloseBrace | Delimiter::CloseBracket => {
                if self.get_last_token() == Delimiter::Semi {
                    self.table.pop();
                    self.table.pop();
                } else {
                    self.table.pop();
                }
            },
            Delimiter::Default => (),
        }
    }
}

impl LR1Parser {
    /// A fresh parser: empty automaton and tables, the initial status, an
    /// empty checkpoint stack, and no recorded errors.
    pub fn new() -> (p: Self)
        ensures
            p.tokens@.len() == 0,
            p.error_list@.len() == 0,
            p.status.state_stack@ == seq![0usize],
            p.status.node_stack@.len() == 1,
            sym_of(p.status.node_stack@[0].element) == (SpecSym { terminal: false, name: "#"@ }),
            p.status.node_stack@[0].children is None,
            status_wf(p.status),
            p.part_table.table@.len() == 0,
            part_table_wf(p.part_table),
            p.pos == 0,
            !p.reached_accept,
            p.lr1_sets@.len() == 0,
            p.action_table@.len() == 0,
            p.goto_table@.len() == 0,
    {
        Self {
            tokens: Vec::new(),
            error_list: Vec::new(),
            status: Status::init(),
            part_table: PartitionTable::new(),
            pos: 0,
            reached_accept: false,
            lr1_sets: Vec::new(),
            action_table: Vec::new(),
            goto_table: Vec::new(),
        }
    }

    /// The position of the action entry at `(state, symbol)`, if any.
    fn find_action_idx(&self, state: usize, symbol: &Token) -> (r: Option<usize>)
        ensures
            match r {
                Some(i) => i < self.action_table@.len() && self.action_table@[i as int].state
                    == state && sym_of(self.action_table@[i as int].symbol) == sym_of(*symbol)
                    && akey_first(self.action_table@, state, sym_of(*symbol)) == Some(i as int),
                None => !has_akey(atab_of(self.action_table@), state as int, sym_of(*symbol))
                    && akey_first(self.action_table@, state, sym_of(*symbol)) is None,
            },
    {
        let mut k: usize = 0;
        while k < self.action_table.len()
            invariant
                k <= self.action_table@.len(),
                forall|i: int|
                    0 <= i < k ==> !((#[trigger] self.action_table@[i]).state == state && sym_of(
                        self.action_table@[i].symbol,
                    ) == sym_of(*symbol)),
            decreases self.action_table@.len() - k,
        {
            if self.action_table[k].state == state && sym_eq(&self.action_table[k].symbol, symbol) {
                proof {
                    lemma_akey_first_at(self.action_table@, state, sym_of(*symbol), k as int);
                }
                return Some(k);
            }
            k += 1;
        }
        proof {
            lemma_akey_first_none(self.action_table@, state, sym_of(*symbol));
        }
        proof {
            assert forall|i: int|
                0 <= i < atab_of(self.action_table@).len() implies !((#[trigger] atab_of(
                self.action_table@,
            )[i]).state == state as int && atab_of(self.action_table@)[i].symbol == sym_of(
                *symbol,
            )) by {
                assert(atab_of(self.action_table@)[i].state == self.action_table@[i].state as int);
            };
        }
        None
    }

    /// The position of the goto entry at `(state, symbol)`, if any.
    fn find_goto_idx(&self, state: usize, symbol: &Token) -> (r: Option<usize>)
        ensures
            match r {
                Some(i) => i < self.goto_table@.len() && self.goto_table@[i as int].state == state
                    && sym_of(self.goto_table@[i as int].symbol) == sym_of(*symbol) && gkey_first(
                    self.goto_table@,
                    state,
                    sym_of(*symbol),
                ) == Some(i as int),
                None => !has_gkey(gtab_of(self.goto_table@), state as int, sym_of(*symbol))
                    && gkey_first(self.goto_table@, state, sym_of(*symbol)) is None,
            },
    {
        let mut k: usize = 0;
        while k < self.goto_table.len()
            invariant
                k <= self.goto_table@.len(),
                forall|i: int|
                    0 <= i < k ==> !((#[trigger] self.goto_table@[i]).state == state && sym_of(
                        self.goto_table@[i].symbol,
                    ) == sym_of(*symbol)),
            decreases self.goto_table@.len() - k,
        {
            if self.goto_table[k].state == state && sym_eq(&self.goto_table[k].symbol, symbol) {
                proof {
                    lemma_gkey_first_at(self.goto_table@, state, sym_of(*symbol), k as int);
                }
                return Some(k);
            }
            k += 1;
        }
        proof {
            lemma_gkey_first_none(self.goto_table@, state, sym_of(*symbol));
        }
        proof {
            assert forall|i: int|
                0 <= i < gtab_of(self.goto_table@).len() implies !((#[trigger] gtab_of(
                self.goto_table@,
            )[i]).state == state as int && gtab_of(self.goto_table@)[i].symbol == sym_of(
                *symbol,
            )) by {
                assert(gtab_of(self.goto_table@)[i].state == self.goto_table@[i].state as int);
            };
        }
        None
    }

    /// The token behind the read position (the token at it, before any
    /// token was consumed).
    pub fn get_last_token(&self) -> (r: &Token)
        requires
            self.tokens@.len() > 0,
            self.pos <= self.tokens@.len(),
        ensures
            *r == self.tokens@[if self.pos == 0 {
                0int
            } else {
                self.pos - 1
            }],
    {
        &self.tokens[if self.pos == 0 {
            0
        } else {
            self.pos - 1
        }]
    }

    /// The token at the read position, clamped to the end marker once the
    /// stream is exhausted.
    pub fn get_current_token(&self) -> (r: &Token)
        requires
            self.tokens@.len() > 0,
        ensures
            *r == self.tokens@[if self.pos < self.tokens@.len() {
                self.pos as int
            } else {
                self.tokens@.len() - 1
            }],
    {
        &self.tokens[if self.pos >= self.tokens.len() {
            self.tokens.len() - 1
        } else {
            self.pos
        }]
    }

    /// Advances the read position by one token.
    pub fn step_forward(&mut self)
        requires
            old(self).pos < old(self).tokens@.len(),
        ensures
            final(self).pos == old(self).pos + 1,
            final(self).tokens == old(self).tokens,
            final(self).error_list == old(self).error_list,
            final(self).status == old(self).status,
            final(self).part_table == old(self).part_table,
            final(self).reached_accept == old(self).reached_accept,
            final(self).lr1_sets == old(self).lr1_sets,
            final(self).action_table == old(self).action_table,
            final(self).goto_table == old(self).goto_table,
    {
        let n = self.tokens.len();
        proof {
            assert(self.pos < n);
        }
        self.pos = self.pos + 1;
    }

    /// Restores the status of the most recent recovery checkpoint.
    pub fn fallback(&mut self)
        requires
            part_table_wf(old(self).part_table),
        ensures
            status_wf(final(self).status),
            final(self).tokens == old(self).tokens,
            final(self).error_list == old(self).error_list,
            final(self).part_table == old(self).part_table,
            final(self).pos == old(self).pos,
            final(self).reached_accept == old(self).reached_accept,
            final(self).lr1_sets == old(self).lr1_sets,
            final(self).action_table == old(self).action_table,
            final(self).goto_table == old(self).goto_table,
            final(self).status.state_stack@ == restored_stack(old(self).part_table.table@),
            old(self).part_table.table@.len() > 0 ==> forest_view(final(self).status.node_stack@)
                == forest_view(
                old(self).part_table.table@[old(self).part_table.table@.len()
                    - 1].status.node_stack@,
            ),
            old(self).part_table.table@.len() == 0 ==> final(self).status.node_stack@.len() == 1
                && final(self).status.node_stack@[0].children is None && sym_of(
                final(self).status.node_stack@[0].element,
            ) == (SpecSym { terminal: false, name: "#"@ }),
    {
        self.status = self.part_table.get_last_status();
        proof {
            if old(self).part_table.table@.len() == 0 {
                assert(self.status.state_stack@ =~= restored_stack(old(self).part_table.table@));
            }
        }
    }

    /// Records a recovery checkpoint when the token just consumed is a
    /// delimiter.
    pub fn try_partition(&mut self)
        requires
            old(self).tokens@.len() > 0,
            old(self).pos <= old(self).tokens@.len(),
            status_wf(old(self).status),
            part_table_wf(old(self).part_table),
        ensures
            part_table_wf(final(self).part_table),
            final(self).tokens == old(self).tokens,
            final(self).error_list == old(self).error_list,
            final(self).status == old(self).status,
            final(self).pos == old(self).pos,
            final(self).reached_accept == old(self).reached_accept,
            final(self).lr1_sets == old(self).lr1_sets,
            final(self).action_table == old(self).action_table,
            final(self).goto_table == old(self).goto_table,
            spec_delimiter(
                sym_of(
                    old(self).tokens@[if old(self).pos == 0 {
                        0int
                    } else {
                        old(self).pos - 1
                    }],
                ).name,
            ) == Delimiter::Default ==> final(self).part_table == old(self).part_table,
            stacks_checkpoint(
                spec_delimiter(
                    sym_of(
                        old(self).tokens@[if old(self).pos == 0 {
                            0int
                        } else {
                            old(self).pos - 1
                        }],
                    ).name,
                ),
            ) ==> final(self).part_table.table@.len() == (if top_is_semi(old(self).part_table) {
                old(self).part_table.table@.len() - 1
            } else {
                old(self).part_table.table@.len() as int
            }) + 1 && (forall|i: int|
                0 <= i < final(self).part_table.table@.len() - 1
                    ==> final(self).part_table.table@[i] == (if top_is_semi(old(self).part_table) {
                    old(self).part_table.table@.drop_last()
                } else {
                    old(self).part_table.table@
                })[i]) && final(self).part_table.table@[final(self).part_table.table@.len()
                - 1].partition_head == spec_delimiter(
                sym_of(
                    old(self).tokens@[if old(self).pos == 0 {
                        0int
                    } else {
                        old(self).pos - 1
                    }],
                ).name,
            ) && final(self).part_table.table@[final(self).part_table.table@.len()
                - 1].status.state_stack@ == old(self).status.state_stack@ && forest_view(
                final(self).part_table.table@[final(self).part_table.table@.len()
                    - 1].status.node_stack@,
            ) == forest_view(old(self).status.node_stack@),
            pops_checkpoint(
                spec_delimiter(
                    sym_of(
                        old(self).tokens@[if old(self).pos == 0 {
                            0int
                        } else {
                            old(self).pos - 1
                        }],
                    ).name,
                ),
            ) ==> final(self).part_table.table@ == (if top_is_semi(old(self).part_table) {
                if old(self).part_table.table@.len() >= 2 {
                    old(self).part_table.table@.take(old(self).part_table.table@.len() - 2)
                } else {
                    Seq::empty()
                }
            } else {
                if old(self).part_table.table@.len() >= 1 {
                    old(self).part_table.table@.drop_last()
                } else {
                    old(self).part_table.table@
                }
            }),
    {
        let symbol = Delimiter::from_token(self.get_last_token());
        if symbol.is_delimiter() {
            let snap = self.status.snapshot();
            self.part_table.update(Partition { partition_head: symbol, status: snap });
        }
    }

    /// Records the unexpected symbol at the read position, then
    /// resynchronizes: skip forward one token at a time until the stream
    /// ends, a region-ending delimiter is reached (the last checkpoint's
    /// status is then restored), or a token appears for which the action
    /// table has a row at the current top state.  The read position
    /// always moves forward, and stops at the first qualifying position.
    pub fn err_handle(&mut self)
        requires
            old(self).pos < old(self).tokens@.len(),
            status_wf(old(self).status),
            part_table_wf(old(self).part_table),
        ensures
            final(self).pos > old(self).pos,
            final(self).pos <= final(self).tokens@.len(),
            status_wf(final(self).status),
            part_table_wf(final(self).part_table),
            final(self).tokens == old(self).tokens,
            final(self).part_table == old(self).part_table,
            final(self).reached_accept == old(self).reached_accept,
            final(self).lr1_sets == old(self).lr1_sets,
            final(self).action_table == old(self).action_table,
            final(self).goto_table == old(self).goto_table,
            final(self).error_list@.len() == old(self).error_list@.len() + 1,
            forall|i: int|
                0 <= i < old(self).error_list@.len() ==> final(self).error_list@[i] == old(
                    self,
                ).error_list@[i],
            final(self).error_list@[old(self).error_list@.len() as int].error_pos == old(
                self,
            ).pos,
            final(self).error_list@[old(self).error_list@.len() as int].error_type is Unknown,
            recover_scan_ok(
                final(self).action_table@,
                final(self).tokens@,
                old(self).status.state_stack@,
                old(self).part_table.table@,
                old(self).pos as int,
                final(self).pos as int,
                final(self).status.state_stack@,
            ),
            (final(self).pos == final(self).tokens@.len() || !limits(
                sym_of(final(self).tokens@[final(self).pos as int]).name,
            )) ==> final(self).status == old(self).status,
    {
        let ghost p0 = self.pos as int;
        let ghost stack0 = self.status.state_stack@;
        let ghost parts0 = self.part_table.table@;
        let cur_val = self.tokens[self.pos].get_value().clone();
        self.error_list.push(
            ParserError { error_type: ErrorType::Unknown(cur_val), error_pos: self.pos },
        );
        let ghost el1 = self.error_list@;
        let mut found = false;
        while !found
            invariant_except_break
                self.pos < self.tokens@.len(),
                !found ==> self.status == old(self).status,
                !found ==> forall|q: int|
                    p0 < q <= self.pos ==> !limits(sym_of(#[trigger] self.tokens@[q]).name)
                        && !has_akey(
                        atab_of(self.action_table@),
                        stack0[stack0.len() - 1] as int,
                        sym_of(self.tokens@[q]),
                    ),
            invariant
                self.pos <= self.tokens@.len(),
                self.pos >= old(self).pos,
                found ==> self.pos > old(self).pos,
                p0 == old(self).pos as int,
                stack0 == old(self).status.state_stack@,
                parts0 == old(self).part_table.table@,
                stack0.len() > 0,
                status_wf(self.status),
                part_table_wf(self.part_table),
                self.tokens == old(self).tokens,
                self.part_table == old(self).part_table,
                self.reached_accept == old(self).reached_accept,
                self.lr1_sets == old(self).lr1_sets,
                self.action_table == old(self).action_table,
                self.goto_table == old(self).goto_table,
                self.error_list@ == el1,
                found ==> self.status == old(self).status && !limits(
                    sym_of(self.tokens@[self.pos as int]).name,
                ) && has_akey(
                    atab_of(self.action_table@),
                    stack0[stack0.len() - 1] as int,
                    sym_of(self.tokens@[self.pos as int]),
                ) && forall|q: int|
                    p0 < q < self.pos ==> !limits(sym_of(#[trigger] self.tokens@[q]).name)
                        && !has_akey(
                        atab_of(self.action_table@),
                        stack0[stack0.len() - 1] as int,
                        sym_of(self.tokens@[q]),
                    ),
            ensures
                self.pos > old(self).pos,
                self.pos <= self.tokens@.len(),
                status_wf(self.status),
                part_table_wf(self.part_table),
                self.tokens == old(self).tokens,
                self.part_table == old(self).part_table,
                self.reached_accept == old(self).reached_accept,
                self.lr1_sets == old(self).lr1_sets,
                self.action_table == old(self).action_table,
                self.goto_table == old(self).goto_table,
                self.error_list@ == el1,
                recover_scan_ok(
                    self.action_table@,
                    self.tokens@,
                    stack0,
                    parts0,
                    p0,
                    self.pos as int,
                    self.status.state_stack@,
                ),
                (self.pos == self.tokens@.len() || !limits(
                    sym_of(self.tokens@[self.pos as int]).name,
                )) ==> self.status == old(self).status,
            decreases self.tokens@.len() - self.pos,
        {
            self.step_forward();
            if self.pos >= self.tokens.len() {
                break;
            }
            let symbol = Delimiter::from_token(self.get_current_token());
            if symbol.is_limiter() {
                self.fallback();
                break;
            }
            let state = self.status.state_stack[self.status.state_stack.len() - 1];
            let fa = self.find_action_idx(state, &self.tokens[self.pos]);
            if fa.is_some() {
                found = true;
                proof {
                    let i = fa->0;
                    assert(atab_of(self.action_table@)[i as int] == crate::lr1::aentry_of(
                        self.action_table@[i as int],
                    ));
                    assert(has_akey(
                        atab_of(self.action_table@),
                        state as int,
                        sym_of(self.tokens@[self.pos as int]),
                    ));
                }
            }
        }
    }
}

/// One snapshot of the engine's control state: the state stack, the
/// checkpoint stack, the read position, the error count, the accept and
/// halt flags, and the number of steps taken so far.
pub struct EngCfg {
    pub stack: Seq<usize>,
    pub parts: Seq<Partition>,
    pub pos: int,
    pub nerrs: int,
    pub accepted: bool,
    pub halted: bool,
    pub steps: int,
}

/// What one engine step did: a shift, a shift of the empty marker, a
/// reduce, the accept, one error recovery, a stop on a broken table (a
/// goto hole or a reduce deeper than the stack), or the step bound
/// running out.
pub enum EngEvent {
    Shift,
    EpsShift,
    Reduce,
    Accept,
    Recover,
    GotoHole,
    DeepReduce,
    StepsOut,
}

/// A configuration the main loop still works on.
pub open spec fn cfg_live(c: EngCfg, toks: Seq<Token>) -> bool {
    !c.halted && !c.accepted && 0 <= c.pos < toks.len() && c.stack.len() > 0
}

/// The current top state.
pub open spec fn cfg_top(c: EngCfg) -> usize {
    c.stack[c.stack.len() - 1]
}

/// Whether the most recent checkpoint is a statement separator.
pub open spec fn semi_top(parts: Seq<Partition>) -> bool {
    parts.len() > 0 && parts[parts.len() - 1].partition_head == Delimiter::Semi
}

/// The checkpoint stack a shifted token leaves behind: the spec mirror of
/// recording a checkpoint for a delimiter token, with the snapshot's
/// state stack equal to the stack after the shift.
pub open spec fn parts_after_shift(
    d: Delimiter,
    stack1: Seq<usize>,
    parts0: Seq<Partition>,
    parts1: Seq<Partition>,
) -> bool {
    if d == Delimiter::Default {
        parts1 == parts0
    } else if stacks_checkpoint(d) {
        &&& parts1.len() == (if semi_top(parts0) {
            parts0.len() - 1
        } else {
            parts0.len() as int
        }) + 1
        &&& forall|i: int|
            0 <= i < parts1.len() - 1 ==> parts1[i] == (if semi_top(parts0) {
                parts0.drop_last()
            } else {
                parts0
            })[i]
        &&& parts1[parts1.len() - 1].partition_head == d
        &&& parts1[parts1.len() - 1].status.state_stack@ == stack1
    } else {
        parts1 == (if semi_top(parts0) {
            if parts0.len() >= 2 {
                parts0.take(parts0.len() - 2)
            } else {
                Seq::<Partition>::empty()
            }
        } else {
            if parts0.len() >= 1 {
                parts0.drop_last()
            } else {
                parts0
            }
        })
    }
}

/// Validity of one engine step: each event mirrors one branch of the main
/// loop, read against the first matching table rows.
pub open spec fn eng_step_ok(
    at: Seq<ActionEntry>,
    gt: Seq<GotoEntry>,
    toks: Seq<Token>,
    c: EngCfg,
    e: EngEvent,
    d: EngCfg,
) -> bool {
    match e {
        EngEvent::Shift => cfg_live(c, toks) && (match akey_first(
            at,
            cfg_top(c),
            sym_of(toks[c.pos]),
        ) {
            Some(i) => at[i].action matches Action::Shift(n) && d.stack == c.stack.push(n)
                && d.pos == c.pos + 1 && d.nerrs == c.nerrs && !d.accepted && !d.halted && d.steps
                == c.steps + 1 && parts_after_shift(
                spec_delimiter(sym_of(toks[c.pos]).name),
                d.stack,
                c.parts,
                d.parts,
            ),
            None => false,
        }),
        EngEvent::EpsShift => cfg_live(c, toks) && akey_first(
            at,
            cfg_top(c),
            sym_of(toks[c.pos]),
        ) is None && (match akey_first(at, cfg_top(c), eps_sym()) {
            Some(i) => at[i].action matches Action::Shift(n) && d.stack == c.stack.push(n)
                && d.pos == c.pos && d.nerrs == c.nerrs && !d.accepted && !d.halted && d.steps
                == c.steps + 1 && d.parts == c.parts,
            None => false,
        }),
        EngEvent::Reduce => cfg_live(c, toks) && (match akey_first(
            at,
            cfg_top(c),
            sym_of(toks[c.pos]),
        ) {
            Some(i) => at[i].action matches Action::Reduce(h, b) && b@.len() < c.stack.len() && (
            match gkey_first(gt, c.stack[c.stack.len() - 1 - b@.len()], sym_of(h)) {
                Some(gi) => d.stack == c.stack.take(c.stack.len() - b@.len()).push(gt[gi].target)
                    && d.pos == c.pos && d.nerrs == c.nerrs && !d.accepted && !d.halted && d.steps
                    == c.steps + 1 && d.parts == c.parts,
                None => false,
            }),
            None => false,
        }),
        EngEvent::Accept => cfg_live(c, toks) && (match akey_first(
            at,
            cfg_top(c),
            sym_of(toks[c.pos]),
        ) {
            Some(i) => at[i].action is Accept && d.stack == c.stack && d.pos == c.pos && d.nerrs
                == c.nerrs && d.accepted && !d.halted && d.steps == c.steps + 1 && d.parts
                == c.parts,
            None => false,
        }),
        EngEvent::GotoHole => cfg_live(c, toks) && (match akey_first(
            at,
            cfg_top(c),
            sym_of(toks[c.pos]),
        ) {
            Some(i) => at[i].action matches Action::Reduce(h, b) && b@.len() < c.stack.len()
                && gkey_first(gt, c.stack[c.stack.len() - 1 - b@.len()], sym_of(h)) is None
                && d.stack == c.stack.take(c.stack.len() - b@.len()) && d.pos == c.pos && d.nerrs
                == c.nerrs + 1 && !d.accepted && d.halted && d.steps == c.steps + 1 && d.parts
                == c.parts,
            None => false,
        }),
        EngEvent::DeepReduce => cfg_live(c, toks) && (match akey_first(
            at,
            cfg_top(c),
            sym_of(toks[c.pos]),
        ) {
            Some(i) => at[i].action matches Action::Reduce(h, b) && b@.len() >= c.stack.len()
                && d.stack == c.stack && d.pos == c.pos && d.nerrs == c.nerrs + 1 && !d.accepted
                && d.halted && d.steps == c.steps + 1 && d.parts == c.parts,
            None => false,
        }),
        EngEvent::Recover => cfg_live(c, toks) && akey_first(at, cfg_top(c), sym_of(toks[c.pos]))
            is None && !(match akey_first(at, cfg_top(c), eps_sym()) {
            Some(i) => at[i].action is Shift,
            None => false,
        }) && d.nerrs == c.nerrs + 1 && d.parts == c.parts && !d.accepted && !d.halted && d.steps
            == c.steps + 1 && recover_scan_ok(at, toks, c.stack, c.parts, c.pos, d.pos, d.stack),
        EngEvent::StepsOut => !c.halted && !c.accepted && 0 <= c.pos < toks.len() && c.steps
            >= usize::MAX && d.stack == c.stack && d.pos == c.pos && d.nerrs == c.nerrs + 1
            && d.accepted == c.accepted && d.halted && d.steps == c.steps + 1 && d.parts
            == c.parts,
    }
}

/// A run: the configurations reached from `c0` by the listed events, in
/// order, end at `c1`.
pub open spec fn valid_run(
    at: Seq<ActionEntry>,
    gt: Seq<GotoEntry>,
    toks: Seq<Token>,
    c0: EngCfg,
    log: Seq<EngEvent>,
    c1: EngCfg,
) -> bool
    decreases log.len(),
{
    if log.len() == 0 {
        c1 == c0
    } else {
        exists|mid: EngCfg|
            #[trigger] eng_step_ok(at, gt, toks, c0, log[0], mid) && valid_run(
                at,
                gt,
                toks,
                mid,
                log.drop_first(),
                c1,
            )
    }
}

/// A run extends by one valid step.
proof fn lemma_run_snoc(
    at: Seq<ActionEntry>,
    gt: Seq<GotoEntry>,
    toks: Seq<Token>,
    c0: EngCfg,
    log: Seq<EngEvent>,
    c1: EngCfg,
    e: EngEvent,
    c2: EngCfg,
)
    requires
        valid_run(at, gt, toks, c0, log, c1),
        eng_step_ok(at, gt, toks, c1, e, c2),
    ensures
        valid_run(at, gt, toks, c0, log.push(e), c2),
    decreases log.len(),
{
    if log.len() == 0 {
        assert(c1 == c0);
        assert(log.push(e)[0] == e);
        assert(log.push(e).drop_first() =~= Seq::<EngEvent>::empty());
        assert(eng_step_ok(at, gt, toks, c0, log.push(e)[0], c2));
        assert(valid_run(at, gt, toks, c2, log.push(e).drop_first(), c2));
    } else {
        let mid = choose|mid: EngCfg|
            #[trigger] eng_step_ok(at, gt, toks, c0, log[0], mid) && valid_run(
                at,
                gt,
                toks,
                mid,
                log.drop_first(),
                c1,
            );
        lemma_run_snoc(at, gt, toks, mid, log.drop_first(), c1, e, c2);
        assert(log.push(e)[0] == log[0]);
        assert(log.push(e).drop_first() =~= log.drop_first().push(e));
        assert(eng_step_ok(at, gt, toks, c0, log.push(e)[0], mid));
        assert(valid_run(at, gt, toks, mid, log.push(e).drop_first(), c2));
    }
}

impl LR1Parser {
    /// Runs the shift-reduce loop over `input` with the end marker
    /// appended, building the parse tree on the node stack; an unexpected
    /// symbol is recorded and recovered from, so malformed input never
    /// stops the engine, and the run always halts.
    ///
    /// The whole run is certified: some sequence of engine events — each
    /// valid against the first matching table rows — leads from the
    /// initial configuration to the returned one.  So Accept is reached
    /// only through an Accept row at the final top state, and every
    /// recorded error stems from a position its state had no action for.
    /// On a run that records no error, the node stack's leaf fringe (the
    /// empty markers dropped) is the incoming fringe followed by exactly
    /// the consumed tokens.
    pub fn construct_tree(self, input: &[Token]) -> (r: Self)
        requires
            status_wf(self.status),
            part_table_wf(self.part_table),
            self.pos == 0,
            !self.reached_accept,
        ensures
            r.tokens@.len() == input@.len() + 1,
            forall|i: int| 0 <= i < input@.len() ==> r.tokens@[i] == input@[i],
            sym_of(r.tokens@[input@.len() as int]) == (SpecSym { terminal: true, name: "#"@ }),
            r.pos <= r.tokens@.len(),
            status_wf(r.status),
            part_table_wf(r.part_table),
            r.lr1_sets == self.lr1_sets,
            r.action_table == self.action_table,
            r.goto_table == self.goto_table,
            r.error_list@.len() >= self.error_list@.len(),
            forall|i: int|
                0 <= i < self.error_list@.len() ==> r.error_list@[i] == self.error_list@[i],
            r.reached_accept || r.error_list@.len() > self.error_list@.len() || r.pos
                == r.tokens@.len(),
            r.error_list@.len() == self.error_list@.len() ==> stack_fringe(r.status.node_stack@)
                == stack_fringe(self.status.node_stack@) + sans_marks(
                r.tokens@.take(r.pos as int),
            ),
            r.reached_accept ==> r.pos < r.tokens@.len() && r.status.state_stack@.len() > 0 && (
            match akey_first(
                r.action_table@,
                r.status.state_stack@[r.status.state_stack@.len() - 1],
                sym_of(r.tokens@[r.pos as int]),
            ) {
                Some(i) => r.action_table@[i].action is Accept,
                None => false,
            }),
            exists|log: Seq<EngEvent>, h: bool, st: int|
                #[trigger] valid_run(
                    r.action_table@,
                    r.goto_table@,
                    r.tokens@,
                    (EngCfg {
                        stack: self.status.state_stack@,
                        parts: self.part_table.table@,
                        pos: 0,
                        nerrs: self.error_list@.len() as int,
                        accepted: false,
                        halted: false,
                        steps: 0,
                    }),
                    log,
                    (EngCfg {
                        stack: r.status.state_stack@,
                        parts: r.part_table.table@,
                        pos: r.pos as int,
                        nerrs: r.error_list@.len() as int,
                        accepted: r.reached_accept,
                        halted: h,
                        steps: st,
                    }),
                ) && (h || r.reached_accept || r.pos == r.tokens@.len()),
    {
        let mut this = self;
        let ghost el0 = this.error_list@;
        let ghost ls0 = this.lr1_sets;
        let ghost at0 = this.action_table;
        let ghost gt0 = this.goto_table;
        let ghost atv = this.action_table@;
        let ghost gtv = this.goto_table@;
        let mut toks: Vec<Token> = Vec::new();
        let mut i: usize = 0;
        while i < input.len()
            invariant
                i <= input@.len(),
                toks@.len() == i,
                forall|x: int| 0 <= x < i ==> toks@[x] == input@[x],
            decreases input@.len() - i,
        {
            toks.push(input[i].duplicate());
            i += 1;
        }
        toks.push(end_symbol());
        this.tokens = toks;
        let ghost tk = this.tokens@;
        let ghost cfg0 = EngCfg {
            stack: this.status.state_stack@,
            parts: this.part_table.table@,
            pos: 0,
            nerrs: this.error_list@.len() as int,
            accepted: false,
            halted: false,
            steps: 0,
        };
        let ghost mut log: Seq<EngEvent> = Seq::empty();
        let ghost ns0 = this.status.node_stack@;
        proof {
            assert(sym_of(tk[input@.len() as int]) =~= (SpecSym { terminal: true, name: "#"@ }));
            assert(tk.take(0) =~= Seq::<Token>::empty());
            assert(sans_marks(tk.take(0)) == Seq::<Token>::empty());
            assert(stack_fringe(ns0) + sans_marks(tk.take(0)) =~= stack_fringe(ns0));
            assert(valid_run(
                atv,
                gtv,
                tk,
                cfg0,
                log,
                (EngCfg {
                    stack: this.status.state_stack@,
                    parts: this.part_table.table@,
                    pos: this.pos as int,
                    nerrs: this.error_list@.len() as int,
                    accepted: false,
                    halted: false,
                    steps: 0,
                }),
            ));
        }
        let mut steps: usize = 0;
        let mut broke = false;
        while this.pos < this.tokens.len() && steps < usize::MAX
            invariant_except_break
                !broke,
                !this.reached_accept,
                valid_run(
                    atv,
                    gtv,
                    tk,
                    cfg0,
                    log,
                    (EngCfg {
                        stack: this.status.state_stack@,
                        parts: this.part_table.table@,
                        pos: this.pos as int,
                        nerrs: this.error_list@.len() as int,
                        accepted: false,
                        halted: false,
                        steps: steps as int,
                    }),
                ),
            invariant
                this.tokens@ == tk,
                tk.len() == input@.len() + 1,
                this.pos <= this.tokens@.len(),
                status_wf(this.status),
                part_table_wf(this.part_table),
                this.lr1_sets == ls0,
                this.action_table == at0,
                this.goto_table == gt0,
                atv == this.action_table@,
                gtv == this.goto_table@,
                this.error_list@.len() >= el0.len(),
                forall|i2: int| 0 <= i2 < el0.len() ==> this.error_list@[i2] == el0[i2],
                this.error_list@.len() == el0.len() ==> stack_fringe(this.status.node_stack@)
                    == stack_fringe(ns0) + sans_marks(tk.take(this.pos as int)),
            ensures
                this.tokens@ == tk,
                status_wf(this.status),
                part_table_wf(this.part_table),
                this.pos <= this.tokens@.len(),
                this.lr1_sets == ls0,
                this.action_table == at0,
                this.goto_table == gt0,
                this.error_list@.len() >= el0.len(),
                forall|i2: int| 0 <= i2 < el0.len() ==> this.error_list@[i2] == el0[i2],
                valid_run(
                    atv,
                    gtv,
                    tk,
                    cfg0,
                    log,
                    (EngCfg {
                        stack: this.status.state_stack@,
                        parts: this.part_table.table@,
                        pos: this.pos as int,
                        nerrs: this.error_list@.len() as int,
                        accepted: this.reached_accept,
                        halted: broke,
                        steps: steps as int,
                    }),
                ),
                broke || this.reached_accept || this.pos == this.tokens@.len() || steps
                    == usize::MAX,
                broke ==> this.error_list@.len() > el0.len(),
                this.error_list@.len() == el0.len() ==> stack_fringe(this.status.node_stack@)
                    == stack_fringe(ns0) + sans_marks(tk.take(this.pos as int)),
                this.reached_accept ==> this.pos < this.tokens@.len()
                    && this.status.state_stack@.len() > 0 && (match akey_first(
                    this.action_table@,
                    this.status.state_stack@[this.status.state_stack@.len() - 1],
                    sym_of(this.tokens@[this.pos as int]),
                ) {
                    Some(i) => this.action_table@[i].action is Accept,
                    None => false,
                }),
            decreases usize::MAX - steps,
        {
            let ghost c_pre = EngCfg {
                stack: this.status.state_stack@,
                parts: this.part_table.table@,
                pos: this.pos as int,
                nerrs: this.error_list@.len() as int,
                accepted: false,
                halted: false,
                steps: steps as int,
            };
            steps += 1;
            let state = this.status.state_stack[this.status.state_stack.len() - 1];
            proof {
                assert(state == cfg_top(c_pre));
            }
            let act_idx = this.find_action_idx(state, &this.tokens[this.pos]);
            proof {
                match act_idx {
                    Some(ai2) => {
                        assert(akey_first(atv, state, sym_of(tk[c_pre.pos])) == Some(ai2 as int));
                        assert(ai2 < atv.len());
                    },
                    None => {
                        assert(akey_first(atv, state, sym_of(tk[c_pre.pos])) is None);
                    },
                }
            }
            if let Some(ai) = act_idx {
                let mut do_shift: Option<usize> = None;
                let mut do_reduce: Option<(Token, usize)> = None;
                match &this.action_table[ai].action {
                    Action::Shift(t) => {
                        proof {
                            assert(this.action_table@[ai as int].action == Action::Shift(*t));
                        }
                        do_shift = Some(*t);
                    },
                    Action::Reduce(h, b) => {
                        proof {
                            assert(this.action_table@[ai as int].action == Action::Reduce(*h, *b));
                        }
                        do_reduce = Some((h.duplicate(), b.len()));
                    },
                    Action::Accept => {
                        proof {
                            assert(this.action_table@[ai as int].action is Accept);
                        }
                    },
                }
                if let Some(t) = do_shift {
                    let ghost ns_pre = this.status.node_stack@;
                    this.status.state_stack.push(t);
                    let leaf = TreeNode {
                        element: this.tokens[this.pos].duplicate(),
                        children: None,
                    };
                    this.status.node_stack.push(leaf);
                    proof {
                        if this.error_list@.len() == el0.len() {
                            lemma_forest_view_snoc(ns_pre, this.status.node_stack@.last());
                            lemma_forest_fringe_snoc(
                                forest_view(ns_pre),
                                tree_view(this.status.node_stack@.last()),
                            );
                            assert(tk.take(c_pre.pos + 1) =~= tk.take(c_pre.pos).push(
                                tk[c_pre.pos],
                            ));
                            lemma_sans_snoc(tk.take(c_pre.pos), tk[c_pre.pos]);
                            assert(tree_fringe(tree_view(this.status.node_stack@.last())) == (
                            if sym_of(tk[c_pre.pos]) == eps_sym() {
                                Seq::<Token>::empty()
                            } else {
                                seq![tk[c_pre.pos]]
                            }));
                            assert((stack_fringe(ns0) + sans_marks(tk.take(c_pre.pos)))
                                + tree_fringe(tree_view(this.status.node_stack@.last()))
                                =~= stack_fringe(ns0) + sans_marks(tk.take(c_pre.pos + 1)));
                        }
                    }
                    this.step_forward();
                    this.try_partition();
                    proof {
                        let c_post = EngCfg {
                            stack: this.status.state_stack@,
                            parts: this.part_table.table@,
                            pos: this.pos as int,
                            nerrs: this.error_list@.len() as int,
                            accepted: false,
                            halted: false,
                            steps: steps as int,
                        };
                        assert(parts_after_shift(
                            spec_delimiter(sym_of(tk[c_pre.pos]).name),
                            c_post.stack,
                            c_pre.parts,
                            c_post.parts,
                        ));
                        assert(eng_step_ok(atv, gtv, tk, c_pre, EngEvent::Shift, c_post));
                        lemma_run_snoc(atv, gtv, tk, cfg0, log, c_pre, EngEvent::Shift, c_post);
                        log = log.push(EngEvent::Shift);
                    }
                } else if let Some((head, blen)) = do_reduce {
                    proof {
                        assert(atv[ai as int].action matches Action::Reduce(hh, bb) && hh == head
                            && bb@.len() == blen as int);
                    }
                    if blen < this.status.state_stack.len() {
                        let ghost l0 = this.status.state_stack@.len();
                        let ghost stack_pre = this.status.state_stack@;
                        let ghost ns_pre = this.status.node_stack@;
                        let mut tmp: Vec<TreeNode> = Vec::new();
                        let mut q: usize = 0;
                        while q < blen
                            invariant
                                q <= blen,
                                blen < l0,
                                stack_pre.len() == l0,
                                this.status.state_stack@ == stack_pre.take(l0 - q),
                                ns_pre.len() == l0,
                                this.status.node_stack@ == ns_pre.take(l0 - q),
                                tmp@.len() == q,
                                forall|x: int| 0 <= x < q ==> #[trigger] tmp@[x] == ns_pre[l0 - 1
                                    - x],
                                this.tokens@ == tk,
                                this.pos <= this.tokens@.len(),
                                this.pos as int == c_pre.pos,
                                this.part_table.table@ == c_pre.parts,
                                this.error_list@.len() as int == c_pre.nerrs,
                                !this.reached_accept,
                                this.lr1_sets == ls0,
                                this.action_table == at0,
                                this.goto_table == gt0,
                                part_table_wf(this.part_table),
                                this.error_list@.len() >= el0.len(),
                                forall|i2: int|
                                    0 <= i2 < el0.len() ==> this.error_list@[i2] == el0[i2],
                            decreases blen - q,
                        {
                            let _ = this.status.state_stack.pop();
                            let n = this.status.node_stack.pop();
                            if let Some(node) = n {
                                tmp.push(node);
                            } else {
                                proof {
                                    assert(false);
                                }
                            }
                            proof {
                                assert(this.status.state_stack@ =~= stack_pre.take(l0 - q - 1));
                                assert(this.status.node_stack@ =~= ns_pre.take(l0 - q - 1));
                                assert(tmp@[q as int] == ns_pre.take(l0 - q)[l0 - q - 1]);
                            }
                            q += 1;
                        }
                        let mut children: Vec<TreeNode> = Vec::new();
                        let ghost tmp0 = tmp@;
                        loop
                            invariant
                                tmp0.len() == blen,
                                children@.len() + tmp@.len() == blen,
                                tmp@ == tmp0.take(tmp@.len() as int),
                                forall|x: int|
                                    0 <= x < children@.len() ==> #[trigger] children@[x] == tmp0[
                                    blen - 1 - x],
                            ensures
                                children@.len() == blen,
                                forall|x: int|
                                    0 <= x < children@.len() ==> #[trigger] children@[x] == tmp0[
                                    blen - 1 - x],
                            decreases tmp@.len(),
                        {
                            let n = tmp.pop();
                            match n {
                                Some(node) => {
                                    proof {
                                        assert(tmp0.take(tmp@.len() as int + 1)[tmp@.len() as int]
                                            == tmp0[tmp@.len() as int]);
                                    }
                                    children.push(node)
                                },
                                None => { break },
                            }
                        }
                        proof {
                            assert forall|x: int|
                                0 <= x < blen implies #[trigger] children@[x] == ns_pre[l0 - blen
                                + x] by {
                                assert(children@[x] == tmp0[blen - 1 - x]);
                                assert(tmp0[blen - 1 - x] == ns_pre[l0 - blen + x]);
                            };
                        }
                        let top = this.status.state_stack[this.status.state_stack.len() - 1];
                        proof {
                            assert(top == stack_pre[l0 - blen - 1]);
                        }
                        let g_idx = this.find_goto_idx(top, &head);
                        proof {
                            match g_idx {
                                Some(gi2) => {
                                    assert(gkey_first(gtv, top, sym_of(head)) == Some(gi2 as int));
                                    assert(gi2 < gtv.len());
                                },
                                None => {
                                    assert(gkey_first(gtv, top, sym_of(head)) is None);
                                },
                            }
                        }
                        if let Some(gi) = g_idx {
                            let t = this.goto_table[gi].target;
                            proof {
                                assert(gtv[gi as int].target == t);
                            }
                            this.status.state_stack.push(t);
                            this.status.node_stack.push(
                                TreeNode { element: head, children: Some(children) },
                            );
                            proof {
                                if this.error_list@.len() == el0.len() {
                                    let kept = ns_pre.take(l0 - blen);
                                    let node = this.status.node_stack@.last();
                                    assert(this.status.node_stack@ =~= kept.push(node));
                                    lemma_forest_view_snoc(kept, node);
                                    lemma_forest_fringe_snoc(forest_view(kept), tree_view(node));
                                    assert(node.children->0@ == children@);
                                    assert forall|x: int|
                                        0 <= x < children@.len() implies tree_view(
                                        #[trigger] children@[x],
                                    ) == tree_view(ns_pre.skip(l0 - blen)[x]) by {
                                        assert(children@[x] == ns_pre[l0 - blen + x]);
                                        assert(ns_pre.skip(l0 - blen)[x] == ns_pre[l0 - blen + x]);
                                    };
                                    lemma_forest_pointwise(
                                        node.children->0@,
                                        ns_pre.skip(l0 - blen),
                                    );
                                    assert(tree_fringe(tree_view(node)) == forest_fringe(
                                        forest_view(ns_pre.skip(l0 - blen)),
                                    ));
                                    lemma_forest_view_take_skip(ns_pre, l0 - blen);
                                    lemma_forest_index(ns_pre);
                                    lemma_forest_fringe_split(forest_view(ns_pre), l0 - blen);
                                    assert(stack_fringe(this.status.node_stack@) == stack_fringe(
                                        ns_pre,
                                    ));
                                }
                            }
                            proof {
                                let c_post = EngCfg {
                                    stack: this.status.state_stack@,
                                    parts: this.part_table.table@,
                                    pos: this.pos as int,
                                    nerrs: this.error_list@.len() as int,
                                    accepted: false,
                                    halted: false,
                                    steps: steps as int,
                                };
                                assert(eng_step_ok(atv, gtv, tk, c_pre, EngEvent::Reduce, c_post));
                                lemma_run_snoc(
                                    atv,
                                    gtv,
                                    tk,
                                    cfg0,
                                    log,
                                    c_pre,
                                    EngEvent::Reduce,
                                    c_post,
                                );
                                log = log.push(EngEvent::Reduce);
                            }
                        } else {
                            // a goto hole here means broken tables: record
                            // it and stop instead of failing
                            let v = head.get_value().clone();
                            this.error_list.push(
                                ParserError { error_type: ErrorType::Unknown(v), error_pos: this.pos },
                            );
                            broke = true;
                            proof {
                                let c_post = EngCfg {
                                    stack: this.status.state_stack@,
                                    parts: this.part_table.table@,
                                    pos: this.pos as int,
                                    nerrs: this.error_list@.len() as int,
                                    accepted: false,
                                    halted: true,
                                    steps: steps as int,
                                };
                                assert(eng_step_ok(atv, gtv, tk, c_pre, EngEvent::GotoHole, c_post));
                                lemma_run_snoc(
                                    atv,
                                    gtv,
                                    tk,
                                    cfg0,
                                    log,
                                    c_pre,
                                    EngEvent::GotoHole,
                                    c_post,
                                );
                                log = log.push(EngEvent::GotoHole);
                            }
                            break;
                        }
                    } else {
                        // a reduce deeper than the stack means broken
                        // tables: record it and stop instead of failing
                        let v = this.tokens[this.pos].get_value().clone();
                        this.error_list.push(
                            ParserError { error_type: ErrorType::Unknown(v), error_pos: this.pos },
                        );
                        broke = true;
                        proof {
                            let c_post = EngCfg {
                                stack: this.status.state_stack@,
                                parts: this.part_table.table@,
                                pos: this.pos as int,
                                nerrs: this.error_list@.len() as int,
                                accepted: false,
                                halted: true,
                                steps: steps as int,
                            };
                            assert(eng_step_ok(atv, gtv, tk, c_pre, EngEvent::DeepReduce, c_post));
                            lemma_run_snoc(
                                atv,
                                gtv,
                                tk,
                                cfg0,
                                log,
                                c_pre,
                                EngEvent::DeepReduce,
                                c_post,
                            );
                            log = log.push(EngEvent::DeepReduce);
                        }
                        break;
                    }
                } else {
                    this.reached_accept = true;
                    proof {
                        assert(akey_first(
                            this.action_table@,
                            this.status.state_stack@[this.status.state_stack@.len() - 1],
                            sym_of(this.tokens@[this.pos as int]),
                        ) == Some(ai as int));
                        assert(this.action_table@[ai as int].action is Accept);
                        let c_post = EngCfg {
                            stack: this.status.state_stack@,
                            parts: this.part_table.table@,
                            pos: this.pos as int,
                            nerrs: this.error_list@.len() as int,
                            accepted: true,
                            halted: false,
                            steps: steps as int,
                        };
                        assert(eng_step_ok(atv, gtv, tk, c_pre, EngEvent::Accept, c_post));
                        lemma_run_snoc(atv, gtv, tk, cfg0, log, c_pre, EngEvent::Accept, c_post);
                        log = log.push(EngEvent::Accept);
                    }
                    break;
                }
            } else {
                let eps_tok = empty_symbol();
                proof {
                    assert(sym_of(eps_tok) =~= eps_sym());
                }
                let e_idx = this.find_action_idx(state, &eps_tok);
                let mut did_eps = false;
                if let Some(ei) = e_idx {
                    let mut eps_target: Option<usize> = None;
                    if let Action::Shift(t) = &this.action_table[ei].action {
                        proof {
                            assert(this.action_table@[ei as int].action == Action::Shift(*t));
                        }
                        eps_target = Some(*t);
                    }
                    proof {
                        if eps_target is None {
                            assert(!(this.action_table@[ei as int].action is Shift));
                        }
                    }
                    if let Some(t) = eps_target {
                        let ghost ns_pre = this.status.node_stack@;
                        this.status.state_stack.push(t);
                        this.status.node_stack.push(
                            TreeNode { element: eps_tok, children: None },
                        );
                        did_eps = true;
                        proof {
                            if this.error_list@.len() == el0.len() {
                                lemma_forest_view_snoc(ns_pre, this.status.node_stack@.last());
                                lemma_forest_fringe_snoc(
                                    forest_view(ns_pre),
                                    tree_view(this.status.node_stack@.last()),
                                );
                                assert(tree_fringe(tree_view(this.status.node_stack@.last()))
                                    =~= Seq::<Token>::empty());
                                assert(stack_fringe(ns_pre) + Seq::<Token>::empty()
                                    =~= stack_fringe(ns_pre));
                            }
                        }
                        proof {
                            let c_post = EngCfg {
                                stack: this.status.state_stack@,
                                parts: this.part_table.table@,
                                pos: this.pos as int,
                                nerrs: this.error_list@.len() as int,
                                accepted: false,
                                halted: false,
                                steps: steps as int,
                            };
                            assert(eng_step_ok(atv, gtv, tk, c_pre, EngEvent::EpsShift, c_post));
                            lemma_run_snoc(
                                atv,
                                gtv,
                                tk,
                                cfg0,
                                log,
                                c_pre,
                                EngEvent::EpsShift,
                                c_post,
                            );
                            log = log.push(EngEvent::EpsShift);
                        }
                    }
                }
                if !did_eps {
                    this.err_handle();
                    proof {
                        let c_post = EngCfg {
                            stack: this.status.state_stack@,
                            parts: this.part_table.table@,
                            pos: this.pos as int,
                            nerrs: this.error_list@.len() as int,
                            accepted: false,
                            halted: false,
                            steps: steps as int,
                        };
                        assert(eng_step_ok(atv, gtv, tk, c_pre, EngEvent::Recover, c_post));
                        lemma_run_snoc(atv, gtv, tk, cfg0, log, c_pre, EngEvent::Recover, c_post);
                        log = log.push(EngEvent::Recover);
                    }
                }
            }
        }
        let ghost mut h_fin: bool = broke;
        let ghost mut st_fin: int = steps as int;
        if !broke && this.pos < this.tokens.len() && !this.reached_accept {
            // only a cyclic automaton can run the step bound out without
            // any other outcome; record that loudly rather than hang
            let v = this.tokens[this.pos].get_value().clone();
            let ghost c_pre = EngCfg {
                stack: this.status.state_stack@,
                parts: this.part_table.table@,
                pos: this.pos as int,
                nerrs: this.error_list@.len() as int,
                accepted: false,
                halted: false,
                steps: steps as int,
            };
            this.error_list.push(
                ParserError { error_type: ErrorType::Unknown(v), error_pos: this.pos },
            );
            proof {
                let c_post = EngCfg {
                    stack: this.status.state_stack@,
                    parts: this.part_table.table@,
                    pos: this.pos as int,
                    nerrs: this.error_list@.len() as int,
                    accepted: false,
                    halted: true,
                    steps: steps as int + 1,
                };
                assert(eng_step_ok(atv, gtv, tk, c_pre, EngEvent::StepsOut, c_post));
                lemma_run_snoc(atv, gtv, tk, cfg0, log, c_pre, EngEvent::StepsOut, c_post);
                log = log.push(EngEvent::StepsOut);
                h_fin = true;
                st_fin = steps as int + 1;
            }
        }
        proof {
            assert(cfg0 == (EngCfg {
                stack: self.status.state_stack@,
                parts: self.part_table.table@,
                pos: 0,
                nerrs: self.error_list@.len() as int,
                accepted: false,
                halted: false,
                steps: 0,
            }));
            assert(valid_run(
                this.action_table@,
                this.goto_table@,
                this.tokens@,
                (EngCfg {
                    stack: self.status.state_stack@,
                    parts: self.part_table.table@,
                    pos: 0,
                    nerrs: self.error_list@.len() as int,
                    accepted: false,
                    halted: false,
                    steps: 0,
                }),
                log,
                (EngCfg {
                    stack: this.status.state_stack@,
                    parts: this.part_table.table@,
                    pos: this.pos as int,
                    nerrs: this.error_list@.len() as int,
                    accepted: this.reached_accept,
                    halted: h_fin,
                    steps: st_fin,
                }),
            ));
            assert(h_fin || this.reached_accept || this.pos == this.tokens@.len());
        }
        this
    }

    /// Whether the run reached Accept with no recorded error: only then
    /// does the parse claim acceptance.
    pub fn accepted(&self) -> (r: bool)
        ensures
            r == (self.reached_accept && self.error_list@.len() == 0),
    {
        self.reached_accept && self.error_list.len() == 0
    }

    /// Read access to the recorded errors, in discovery order.
    pub fn get_errors(&self) -> (r: &Vec<ParserError>)
        ensures
            r == &self.error_list,
    {
        &self.error_list
    }

    /// Read access to the top of the node stack: after an accepting run
    /// this is the parse-tree root.
    pub fn tree_root(&self) -> (r: Option<&TreeNode>)
        ensures
            self.status.node_stack@.len() == 0 <==> r is None,
            self.status.node_stack@.len() > 0 ==> match r {
                Some(n) => *n == self.status.node_stack@[self.status.node_stack@.len() - 1],
                None => false,
            },
    {
        self.status.node_stack.last()
    }
}

} // verus!
