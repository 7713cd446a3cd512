//! The LR(1) automaton: items, closure, goto, the canonical collection and
//! the action/goto tables.
//!
//! Closure and goto are specified against a non-constructive model: the
//! closure of an item set is the least set closed under item generation.
//! The canonical collection is pinned down as a duplicate-free, goto-closed
//! family of such sets, which is what the table builder relies on.

use vstd::prelude::*;
use crate::engine::{ParserError, PartitionTable, Status};
use crate::grammar::{alts_of, first_computed, first_syms, has_first_in, has_head, has_head_in,
    head_idx_in, name_listed, Grammar};
use crate::types::{SpecSym, Token, push_to_set, sym_eq, sym_of, syms_of, end_symbol};

verus! {

/// An LR(1) item: a production with a dot marking progress through its
/// body and one lookahead terminal.
#[derive(Debug)]
pub struct LR1Item {
    pub head: Token,
    pub body: Vec<Token>,
    pub dot: usize,
    pub lookahead: Token,
}

/// A parsing action: shift to a state, reduce by a production, or accept.
#[derive(Debug)]
pub enum Action {
    Shift(usize),
    Reduce(Token, Vec<Token>),
    Accept,
}

/// One action-table entry: the action at a `(state, terminal)` key.
#[derive(Debug)]
pub struct ActionEntry {
    pub state: usize,
    pub symbol: Token,
    pub action: Action,
}

/// One goto-table entry: the target state at a `(state, nonterminal)` key.
#[derive(Debug)]
pub struct GotoEntry {
    pub state: usize,
    pub symbol: Token,
    pub target: usize,
}

/// The LR(1) parser: the automaton, the derived tables, and the engine
/// state of the current run.
pub struct LR1Parser {
    pub tokens: Vec<Token>,
    pub error_list: Vec<ParserError>,
    pub status: Status,
    pub part_table: PartitionTable,
    pub pos: usize,
    pub reached_accept: bool,
    pub lr1_sets: Vec<Vec<LR1Item>>,
    pub action_table: Vec<ActionEntry>,
    pub goto_table: Vec<GotoEntry>,
}

/// The specification-level identity of an item.
#[verifier::ext_equal]
pub struct SpecItem {
    pub head: SpecSym,
    pub body: Seq<SpecSym>,
    pub dot: int,
    pub lookahead: SpecSym,
}

/// The item a concrete `LR1Item` stands for.
pub open spec fn item_of(it: LR1Item) -> SpecItem {
    SpecItem {
        head: sym_of(it.head),
        body: syms_of(it.body@),
        dot: it.dot as int,
        lookahead: sym_of(it.lookahead),
    }
}

/// The items a sequence of concrete items stands for.
pub open spec fn items_of(s: Seq<LR1Item>) -> Seq<SpecItem> {
    s.map_values(|it: LR1Item| item_of(it))
}

/// The set of items a concrete item vector stands for.
pub open spec fn iset_of(s: Seq<LR1Item>) -> Set<SpecItem> {
    items_of(s).to_set()
}

/// An item the closure machinery can work on: the dot is within the body
/// and every nonterminal in the body has productions.
pub open spec fn item_wf(g: Grammar, it: SpecItem) -> bool {
    &&& 0 <= it.dot <= it.body.len()
    &&& forall|k: int| 0 <= k < it.body.len() ==> gsym_listed(g, #[trigger] it.body[k])
}

/// Every item of the vector is workable.
pub open spec fn items_wf(g: Grammar, s: Seq<LR1Item>) -> bool {
    forall|x: int| 0 <= x < s.len() ==> item_wf(g, item_of(#[trigger] s[x]))
}

/// Closure generation: the item `nit` arises from `it` by expanding the
/// nonterminal after `it`'s dot, with a lookahead drawn from the FIRST
/// set of the rest of `it`'s body followed by `it`'s own lookahead.
pub open spec fn generates(g: Grammar, it: SpecItem, nit: SpecItem) -> bool {
    &&& it.dot < it.body.len()
    &&& !it.body[it.dot].terminal
    &&& nit.head == it.body[it.dot]
    &&& nit.dot == 0
    &&& alts_of(g, nit.head).contains(nit.body)
    &&& first_syms(g, it.body.skip(it.dot + 1), it.lookahead).contains(nit.lookahead)
}

/// A set closed under item generation.
pub open spec fn closed_items(g: Grammar, t: Set<SpecItem>) -> bool {
    forall|it: SpecItem, nit: SpecItem|
        #![trigger t.contains(it), generates(g, it, nit)]
        t.contains(it) && generates(g, it, nit) ==> t.contains(nit)
}

/// The closure of `base`: the least set containing `base` and closed
/// under item generation; an item belongs to it exactly when every closed
/// superset of `base` holds it.
pub open spec fn closure_of(g: Grammar, base: Set<SpecItem>) -> Set<SpecItem> {
    Set::new(
        |it: SpecItem|
            forall|t: Set<SpecItem>| #![trigger t.contains(it)]
                closed_items(g, t) && base.subset_of(t) ==> t.contains(it),
    )
}

/// The same item advanced one symbol.
pub open spec fn bump(it: SpecItem) -> SpecItem {
    SpecItem { head: it.head, body: it.body, dot: it.dot + 1, lookahead: it.lookahead }
}

/// The items of `s` whose dot stands before `x`, advanced past it.
pub open spec fn advance_set(s: Set<SpecItem>, x: SpecSym) -> Set<SpecItem> {
    Set::new(
        |nit: SpecItem|
            exists|it: SpecItem| #[trigger]
                s.contains(it) && it.dot < it.body.len() && it.body[it.dot] == x && nit == bump(
                    it,
                ),
    )
}

/// The goto of an item set under a symbol: advance, then close.
pub open spec fn goto_of(g: Grammar, s: Set<SpecItem>, x: SpecSym) -> Set<SpecItem> {
    closure_of(g, advance_set(s, x))
}

/// The closure contains its base.
pub proof fn lemma_closure_base(g: Grammar, base: Set<SpecItem>)
    ensures
        base.subset_of(closure_of(g, base)),
{
    assert forall|it: SpecItem| base.contains(it) implies closure_of(g, base).contains(it) by {
        assert forall|t: Set<SpecItem>|
            closed_items(g, t) && base.subset_of(t) implies #[trigger] t.contains(it) by {};
    };
}

/// The closure is itself closed under generation.
pub proof fn lemma_closure_closed(g: Grammar, base: Set<SpecItem>)
    ensures
        closed_items(g, closure_of(g, base)),
{
    assert forall|it: SpecItem, nit: SpecItem|
        #![trigger closure_of(g, base).contains(it), generates(g, it, nit)]
        closure_of(g, base).contains(it) && generates(g, it, nit) implies closure_of(
        g,
        base,
    ).contains(nit) by {
        assert forall|t: Set<SpecItem>|
            closed_items(g, t) && base.subset_of(t) implies #[trigger] t.contains(nit) by {
            assert(t.contains(it));
        };
    };
}

/// Leastness: the closure is contained in every closed superset of its
/// base.
pub proof fn lemma_closure_least(g: Grammar, base: Set<SpecItem>, t: Set<SpecItem>)
    requires
        closed_items(g, t),
        base.subset_of(t),
    ensures
        closure_of(g, base).subset_of(t),
{
    assert forall|it: SpecItem| closure_of(g, base).contains(it) implies t.contains(it) by {};
}

/// Applying closure twice yields the same set as applying it once, and
/// closure never removes items.
pub proof fn lemma_closure_idempotent(g: Grammar, s: Set<SpecItem>)
    ensures
        closure_of(g, closure_of(g, s)) == closure_of(g, s),
        s.subset_of(closure_of(g, s)),
{
    lemma_closure_base(g, s);
    lemma_closure_base(g, closure_of(g, s));
    lemma_closure_closed(g, s);
    lemma_closure_least(g, closure_of(g, s), closure_of(g, s));
    assert(closure_of(g, closure_of(g, s)) =~= closure_of(g, s));
}

/// Goto is deterministic: on equal item sets and equal symbols it denotes
/// one and the same item set, however the inputs are represented.
pub proof fn lemma_goto_deterministic(
    g: Grammar,
    s1: Seq<LR1Item>,
    s2: Seq<LR1Item>,
    x1: Token,
    x2: Token,
)
    requires
        iset_of(s1) == iset_of(s2),
        sym_of(x1) == sym_of(x2),
    ensures
        goto_of(g, iset_of(s1), sym_of(x1)) == goto_of(g, iset_of(s2), sym_of(x2)),
{
}

/// Whether two tokens' sequences stand for the same symbol sequence.
pub fn toks_eq(a: &Vec<Token>, b: &Vec<Token>) -> (r: bool)
    ensures
        r == (syms_of(a@) == syms_of(b@)),
{
    if a.len() != b.len() {
        return false;
    }
    let mut k: usize = 0;
    while k < a.len()
        invariant
            k <= a@.len(),
            a@.len() == b@.len(),
            forall|x: int| 0 <= x < k ==> syms_of(a@)[x] == syms_of(b@)[x],
        decreases a@.len() - k,
    {
        if !sym_eq(&a[k], &b[k]) {
            assert(syms_of(a@)[k as int] != syms_of(b@)[k as int]);
            return false;
        }
        k += 1;
    }
    proof {
        assert(syms_of(a@) =~= syms_of(b@));
    }
    true
}

/// Whether two items are the same LR(1) item: same head, body, dot and
/// lookahead.
pub fn item_eq(a: &LR1Item, b: &LR1Item) -> (r: bool)
    ensures
        r == (item_of(*a) == item_of(*b)),
{
    let r = a.dot == b.dot && sym_eq(&a.head, &b.head) && sym_eq(&a.lookahead, &b.lookahead)
        && toks_eq(&a.body, &b.body);
    proof {
        if r {
            assert(item_of(*a) =~= item_of(*b));
        }
    }
    r
}

/// Whether `v` holds the item `it`.
pub fn items_contain(v: &Vec<LR1Item>, it: &LR1Item) -> (r: bool)
    ensures
        r == iset_of(v@).contains(item_of(*it)),
{
    let mut k: usize = 0;
    while k < v.len()
        invariant
            k <= v@.len(),
            forall|x: int| 0 <= x < k ==> items_of(v@)[x] != item_of(*it),
        decreases v@.len() - k,
    {
        if item_eq(&v[k], it) {
            assert(items_of(v@)[k as int] == item_of(*it));
            return true;
        }
        k += 1;
    }
    assert(!items_of(v@).contains(item_of(*it)));
    false
}

/// Whether every item of `a` occurs in `b`.
pub fn item_set_subset(a: &Vec<LR1Item>, b: &Vec<LR1Item>) -> (r: bool)
    ensures
        r == iset_of(a@).subset_of(iset_of(b@)),
{
    let mut k: usize = 0;
    while k < a.len()
        invariant
            k <= a@.len(),
            forall|x: int| 0 <= x < k ==> iset_of(b@).contains(#[trigger] items_of(a@)[x]),
        decreases a@.len() - k,
    {
        if !items_contain(b, &a[k]) {
            proof {
                assert(items_of(a@)[k as int] == item_of(a@[k as int]));
                assert(iset_of(a@).contains(items_of(a@)[k as int]));
            }
            return false;
        }
        proof {
            assert(items_of(a@)[k as int] == item_of(a@[k as int]));
        }
        k += 1;
    }
    proof {
        assert forall|x: SpecItem| iset_of(a@).contains(x) implies iset_of(b@).contains(x) by {
            let w = choose|w: int| 0 <= w < items_of(a@).len() && items_of(a@)[w] == x;
        };
    }
    true
}

/// Whether `a` and `b` hold the same items: the operative equality of
/// automaton states.
pub fn item_set_eq(a: &Vec<LR1Item>, b: &Vec<LR1Item>) -> (r: bool)
    ensures
        r == (iset_of(a@) == iset_of(b@)),
{
    let r = item_set_subset(a, b) && item_set_subset(b, a);
    proof {
        if r {
            assert(iset_of(a@) =~= iset_of(b@));
        }
    }
    r
}

impl LR1Item {
    /// An item standing for the same LR(1) item.
    pub fn duplicate(&self) -> (r: LR1Item)
        ensures
            item_of(r) == item_of(*self),
    {
        let mut body: Vec<Token> = Vec::new();
        let mut k: usize = 0;
        while k < self.body.len()
            invariant
                k <= self.body@.len(),
                body@.len() == k,
                forall|x: int| 0 <= x < k ==> body@[x] == self.body@[x],
            decreases self.body@.len() - k,
        {
            body.push(self.body[k].duplicate());
            k += 1;
        }
        proof {
            assert(body@ =~= self.body@);
        }
        LR1Item {
            head: self.head.duplicate(),
            body,
            dot: self.dot,
            lookahead: self.lookahead.duplicate(),
        }
    }
}

/// A token vector standing for the same symbols.
pub fn clone_toks(v: &Vec<Token>) -> (r: Vec<Token>)
    ensures
        r@ == v@,
{
    let mut r: Vec<Token> = Vec::new();
    let mut k: usize = 0;
    while k < v.len()
        invariant
            k <= v@.len(),
            r@.len() == k,
            forall|x: int| 0 <= x < k ==> r@[x] == v@[x],
        decreases v@.len() - k,
    {
        r.push(v[k].duplicate());
        k += 1;
    }
    proof {
        assert(r@ =~= v@);
    }
    r
}

/// Item views commute with `push`.
proof fn lemma_items_push(s: Seq<LR1Item>, it: LR1Item)
    ensures
        items_of(s.push(it)) == items_of(s).push(item_of(it)),
{
    assert(items_of(s.push(it)) =~= items_of(s).push(item_of(it)));
}

/// Pushing an item inserts its view into the item set.
proof fn lemma_iset_push(s: Seq<LR1Item>, it: LR1Item)
    ensures
        iset_of(s.push(it)) == iset_of(s).insert(item_of(it)),
{
    lemma_items_push(s, it);
    push_to_set::<SpecItem>(items_of(s), item_of(it));
}

/// Pushing an absent item keeps the view sequence duplicate-free.
proof fn lemma_items_push_no_dup(s: Seq<LR1Item>, it: LR1Item)
    requires
        items_of(s).no_duplicates(),
        !iset_of(s).contains(item_of(it)),
    ensures
        items_of(s.push(it)).no_duplicates(),
{
    lemma_items_push(s, it);
    let sq = items_of(s.push(it));
    assert forall|a: int, b: int| 0 <= a < b < sq.len() implies sq[a] != sq[b] by {
        if b == sq.len() - 1 {
            assert(sq[a] == items_of(s)[a]);
            assert(items_of(s).contains(items_of(s)[a]));
        } else {
            assert(sq[a] == items_of(s)[a]);
            assert(sq[b] == items_of(s)[b]);
        }
    };
}

impl LR1Parser {
    /// The closure of an item set: for every item with a nonterminal after
    /// its dot, add an item for each of that nonterminal's alternatives
    /// under every propagated lookahead, until nothing is missing.
    pub fn closure(&self, grammar: &Grammar, item_set: &Vec<LR1Item>) -> (r: Vec<LR1Item>)
        requires
            first_computed(*grammar),
            items_wf(*grammar, item_set@),
        ensures
            items_of(r@).no_duplicates(),
            items_wf(*grammar, r@),
            iset_of(r@) == closure_of(*grammar, iset_of(item_set@)),
    {
        let ghost g = *grammar;
        let ghost base = iset_of(item_set@);
        let mut r: Vec<LR1Item> = Vec::new();
        let mut i: usize = 0;
        proof {
            assert(items_of(r@) =~= Seq::<SpecItem>::empty());
            assert(iset_of(r@) =~= Set::<SpecItem>::empty());
        }
        while i < item_set.len()
            invariant
                i <= item_set@.len(),
                g == *grammar,
                first_computed(g),
                items_wf(g, item_set@),
                items_of(r@).no_duplicates(),
                items_wf(g, r@),
                iset_of(r@).subset_of(iset_of(item_set@)),
                forall|x: int|
                    0 <= x < i ==> iset_of(r@).contains(#[trigger] items_of(item_set@)[x]),
            decreases item_set@.len() - i,
        {
            let ghost r0 = r@;
            if !items_contain(&r, &item_set[i]) {
                r.push(item_set[i].duplicate());
                proof {
                    lemma_iset_push(r0, r@[r0.len() as int]);
                    lemma_items_push_no_dup(r0, r@[r0.len() as int]);
                    assert(item_of(r@[r0.len() as int]) == item_of(item_set@[i as int]));
                    assert(items_of(item_set@)[i as int] == item_of(item_set@[i as int]));
                    assert forall|x: int| 0 <= x < r@.len() implies item_wf(
                        g,
                        item_of(#[trigger] r@[x]),
                    ) by {
                        if x < r0.len() {
                            assert(r@[x] == r0[x]);
                        } else {
                            assert(item_wf(g, item_of(item_set@[i as int])));
                        }
                    };
                    assert forall|x: SpecItem| iset_of(r@).contains(x) implies iset_of(
                        item_set@,
                    ).contains(x) by {
                        if x != item_of(item_set@[i as int]) {
                            assert(iset_of(r0).contains(x));
                        } else {
                            assert(items_of(item_set@)[i as int] == x);
                        }
                    };
                }
            } else {
                proof {
                    assert(items_of(item_set@)[i as int] == item_of(item_set@[i as int]));
                }
            }
            i += 1;
        }
        proof {
            assert forall|x: SpecItem| base.contains(x) implies iset_of(r@).contains(x) by {
                let w = choose|w: int| 0 <= w < items_of(item_set@).len() && items_of(item_set@)[w]
                    == x;
            };
            lemma_closure_base(g, base);
            lemma_closure_closed(g, base);
        }
        let mut w: usize = 0;
        while w < r.len()
            invariant
                w <= r@.len(),
                g == *grammar,
                first_computed(g),
                items_of(r@).no_duplicates(),
                items_wf(g, r@),
                base.subset_of(iset_of(r@)),
                iset_of(r@).subset_of(closure_of(g, base)),
                forall|x: int, nit: SpecItem|
                    #![trigger generates(g, item_of(r@[x]), nit)]
                    0 <= x < w && generates(g, item_of(r@[x]), nit) ==> iset_of(r@).contains(nit),
            decreases usize::MAX - w,
        {
            let ghost it_w = item_of(r@[w as int]);
            let dot = r[w].dot;
            let blen = r[w].body.len();
            let mut advanced = false;
            if dot < blen {
                let is_nt = r[w].body[dot].is_not_terminal();
                if is_nt {
                    let mut rest: Vec<Token> = Vec::new();
                    let mut t: usize = dot + 1;
                    while t < blen
                        invariant
                            dot + 1 <= t <= blen,
                            w < r@.len(),
                            blen == r@[w as int].body@.len(),
                            dot == r@[w as int].dot,
                            rest@.len() == t - (dot + 1),
                            forall|x: int|
                                0 <= x < rest@.len() ==> #[trigger] rest@[x] == r@[w as int].body@[dot
                                    + 1 + x],
                        decreases blen - t,
                    {
                        rest.push(r[w].body[t].duplicate());
                        t += 1;
                    }
                    proof {
                        assert(syms_of(rest@) =~= it_w.body.skip(dot + 1));
                        assert forall|k: int|
                            0 <= k < rest@.len() && !(#[trigger] sym_of(rest@[k])).terminal
                                implies has_first_in(
                            grammar.first_sets@,
                            sym_of(rest@[k]),
                        ) by {
                            assert(sym_of(rest@[k]) == it_w.body[dot + 1 + k]);
                            assert(item_wf(g, it_w));
                            assert(has_head(g, it_w.body[dot + 1 + k]));
                            let hi2 = head_idx_in(grammar.pro_list@, sym_of(rest@[k]));
                            assert(sym_of(grammar.first_sets@[hi2].symbol) == sym_of(rest@[k]));
                        };
                    }
                    let las = grammar.first_symbols(rest.as_slice(), &r[w].lookahead);
                    let ghost x_sym = it_w.body[dot as int];
                    let ghost la_set = first_syms(g, it_w.body.skip(dot + 1), it_w.lookahead);
                    proof {
                        assert(syms_of(las@).to_set() == la_set);
                        assert(item_wf(g, it_w));
                        assert(!x_sym.terminal);
                        assert(has_head(g, x_sym));
                    }
                    let hi = grammar.find_head_idx(&r[w].body[dot]);
                    let alt_count = grammar.pro_list[hi].alternatives.len();
                    let ghost alts = alts_of(g, x_sym);
                    proof {
                        assert(alts == grammar.pro_list@[hi as int].alternatives@.map_values(
                            |a2: Vec<Token>| syms_of(a2@),
                        ));
                    }
                    let mut a: usize = 0;
                    while a < alt_count
                        invariant
                            a <= alt_count,
                            w < r@.len(),
                            g == *grammar,
                            first_computed(g),
                            hi < grammar.pro_list@.len(),
                            alt_count == grammar.pro_list@[hi as int].alternatives@.len(),
                            sym_of(grammar.pro_list@[hi as int].head) == x_sym,
                            hi == head_idx_in(grammar.pro_list@, x_sym),
                            alts == alts_of(g, x_sym),
                            syms_of(las@).to_set() == la_set,
                            it_w == item_of(r@[w as int]),
                            it_w.dot == dot as int,
                            it_w.body.len() == blen as int,
                            dot < blen,
                            !it_w.body[dot as int].terminal,
                            x_sym == it_w.body[dot as int],
                            la_set == first_syms(g, it_w.body.skip(dot as int + 1), it_w.lookahead),
                            items_of(r@).no_duplicates(),
                            items_wf(g, r@),
                            base.subset_of(iset_of(r@)),
                            iset_of(r@).subset_of(closure_of(g, base)),
                            forall|x: int, nit: SpecItem|
                                #![trigger generates(g, item_of(r@[x]), nit)]
                                0 <= x < w && generates(g, item_of(r@[x]), nit) ==> iset_of(
                                    r@,
                                ).contains(nit),
                            forall|a2: int, l2: int|
                                0 <= a2 < a && 0 <= l2 < las@.len() ==> iset_of(r@).contains(
                                    #[trigger] mk_item(
                                        x_sym,
                                        syms_of(
                                            grammar.pro_list@[hi as int].alternatives@[a2]@,
                                        ),
                                        syms_of(las@)[l2],
                                    ),
                                ),
                        decreases alt_count - a,
                    {
                        let mut l: usize = 0;
                        while l < las.len()
                            invariant
                                l <= las@.len(),
                                a < alt_count,
                                w < r@.len(),
                                g == *grammar,
                                first_computed(g),
                                hi < grammar.pro_list@.len(),
                                alt_count == grammar.pro_list@[hi as int].alternatives@.len(),
                                sym_of(grammar.pro_list@[hi as int].head) == x_sym,
                                hi == head_idx_in(grammar.pro_list@, x_sym),
                                alts == alts_of(g, x_sym),
                                syms_of(las@).to_set() == la_set,
                                it_w == item_of(r@[w as int]),
                                it_w.dot == dot as int,
                                it_w.body.len() == blen as int,
                                dot < blen,
                                !it_w.body[dot as int].terminal,
                                x_sym == it_w.body[dot as int],
                                la_set == first_syms(g, it_w.body.skip(dot as int + 1), it_w.lookahead),
                                items_of(r@).no_duplicates(),
                                items_wf(g, r@),
                                base.subset_of(iset_of(r@)),
                                iset_of(r@).subset_of(closure_of(g, base)),
                                forall|x: int, nit: SpecItem|
                                    #![trigger generates(g, item_of(r@[x]), nit)]
                                    0 <= x < w && generates(g, item_of(r@[x]), nit) ==> iset_of(
                                        r@,
                                    ).contains(nit),
                                forall|a2: int, l2: int|
                                    0 <= a2 < a && 0 <= l2 < las@.len() ==> iset_of(r@).contains(
                                        #[trigger] mk_item(
                                            x_sym,
                                            syms_of(
                                                grammar.pro_list@[hi as int].alternatives@[a2]@,
                                            ),
                                            syms_of(las@)[l2],
                                        ),
                                    ),
                                forall|l2: int|
                                    0 <= l2 < l ==> iset_of(r@).contains(
                                        #[trigger] mk_item(
                                            x_sym,
                                            syms_of(
                                                grammar.pro_list@[hi as int].alternatives@[a as int]@,
                                            ),
                                            syms_of(las@)[l2],
                                        ),
                                    ),
                            decreases las@.len() - l,
                        {
                            let nit = LR1Item {
                                head: grammar.pro_list[hi].head.duplicate(),
                                body: clone_toks(&grammar.pro_list[hi].alternatives[a]),
                                dot: 0,
                                lookahead: las[l].duplicate(),
                            };
                            let ghost nitv = item_of(nit);
                            proof {
                                assert(nitv == mk_item(
                                    x_sym,
                                    syms_of(grammar.pro_list@[hi as int].alternatives@[a as int]@),
                                    syms_of(las@)[l as int],
                                ));
                                // the new item is generated by the processed item
                                assert(alts[a as int] == syms_of(
                                    grammar.pro_list@[hi as int].alternatives@[a as int]@,
                                ));
                                assert(alts.contains(nitv.body));
                                assert(syms_of(las@)[l as int] == sym_of(las@[l as int]));
                                assert(syms_of(las@).contains(syms_of(las@)[l as int]));
                                assert(la_set.contains(nitv.lookahead));
                                assert(generates(g, it_w, nitv));
                            }
                            let ghost r1 = r@;
                            if !items_contain(&r, &nit) {
                                r.push(nit);
                                proof {
                                    lemma_iset_push(r1, r@[r1.len() as int]);
                                    lemma_items_push_no_dup(r1, r@[r1.len() as int]);
                                    assert(iset_of(r@) == iset_of(r1).insert(nitv));
                                    // generated items stay inside the closure
                                    assert(iset_of(r1).contains(it_w)) by {
                                        assert(items_of(r1)[w as int] == it_w);
                                    }
                                    assert(closure_of(g, base).contains(it_w));
                                    lemma_closure_closed(g, base);
                                    assert(closure_of(g, base).contains(nitv));
                                    // the new item is workable
                                    assert(item_wf(g, nitv)) by {
                                        assert forall|k: int|
                                            0 <= k < nitv.body.len() && !(#[trigger] nitv.body[k]).terminal
                                                implies has_head(g, nitv.body[k]) by {
                                            assert(nitv.body[k] == sym_of(
                                                grammar.pro_list@[hi as int].alternatives@[a as int]@[k],
                                            ));
                                        };
                                    }
                                    assert forall|x: int| 0 <= x < r@.len() implies item_wf(
                                        g,
                                        item_of(#[trigger] r@[x]),
                                    ) by {
                                        if x < r1.len() {
                                            assert(r@[x] == r1[x]);
                                        }
                                    };
                                }
                            }
                            l += 1;
                        }
                        a += 1;
                    }
                    advanced = true;
                    proof {
                        // everything item `w` generates is now present
                        assert forall|nit: SpecItem| generates(g, it_w, nit) implies iset_of(
                            r@,
                        ).contains(nit) by {
                            let a2 = choose|a2: int| 0 <= a2 < alts.len() && alts[a2] == nit.body;
                            assert(alts[a2] == syms_of(
                                grammar.pro_list@[hi as int].alternatives@[a2]@,
                            ));
                            assert(la_set.contains(nit.lookahead));
                            let l2 = choose|l2: int|
                                0 <= l2 < syms_of(las@).len() && syms_of(las@)[l2]
                                    == nit.lookahead;
                            assert(iset_of(r@).contains(
                                mk_item(
                                    x_sym,
                                    syms_of(grammar.pro_list@[hi as int].alternatives@[a2]@),
                                    syms_of(las@)[l2],
                                ),
                            ));
                            assert(mk_item(x_sym, nit.body, nit.lookahead) =~= nit);
                        };
                    }
                }
            }
            proof {
                if !advanced {
                    assert forall|nit: SpecItem| generates(g, it_w, nit) implies iset_of(
                        r@,
                    ).contains(nit) by {
                        assert(it_w.dot < it_w.body.len() && !it_w.body[it_w.dot].terminal);
                        assert(false);
                    };
                }
            }
            w += 1;
        }
        proof {
            assert(closed_items(g, iset_of(r@))) by {
                assert forall|it: SpecItem, nit: SpecItem|
                    #![trigger iset_of(r@).contains(it), generates(g, it, nit)]
                    iset_of(r@).contains(it) && generates(g, it, nit) implies iset_of(
                    r@,
                ).contains(nit) by {
                    let x = choose|x: int| 0 <= x < items_of(r@).len() && items_of(r@)[x] == it;
                    assert(item_of(r@[x]) == it);
                    assert(generates(g, item_of(r@[x]), nit));
                };
            }
            lemma_closure_least(g, base, iset_of(r@));
            assert(iset_of(r@) =~= closure_of(g, base));
        }
        r
    }
}

/// An expansion item: a production alternative of `h` at dot zero under
/// lookahead `la`.
pub open spec fn mk_item(h: SpecSym, body: Seq<SpecSym>, la: SpecSym) -> SpecItem {
    SpecItem { head: h, body, dot: 0, lookahead: la }
}

/// Whether an item's dot stands immediately before the symbol `x`.
pub open spec fn moves(it: SpecItem, x: SpecSym) -> bool {
    it.dot < it.body.len() && it.body[it.dot] == x
}

/// The end-of-stream marker symbol.
pub open spec fn end_sym() -> SpecSym {
    SpecSym { terminal: true, name: "#"@ }
}

/// The augmented start item: the start symbol's sole alternative at dot
/// zero under the end marker.
pub open spec fn init_item(g: Grammar, h: SpecSym) -> SpecItem {
    mk_item(h, alts_of(g, h)[0], end_sym())
}

/// Whether `x` is one of the grammar's symbols: a terminal of the
/// vocabulary or a nonterminal with productions.
pub open spec fn gsym_listed(g: Grammar, x: SpecSym) -> bool {
    if x.terminal {
        name_listed(g.token_list@, x.name)
    } else {
        has_head(g, x)
    }
}

/// State `s` arises as the goto of an earlier state under some grammar
/// symbol: the certificate that every state is reachable from state 0.
pub open spec fn state_has_parent(g: Grammar, sets: Seq<Vec<LR1Item>>, s: int) -> bool {
    exists|s2: int, x: SpecSym|
        0 <= s2 < s && gsym_listed(g, x) && iset_of(sets[s]@) == #[trigger] goto_of(
            g,
            iset_of(sets[s2]@),
            x,
        )
}

/// Structural soundness of the canonical collection: every state is a
/// non-empty, duplicate-free, workable item vector, and no two states
/// hold the same item set.
pub open spec fn sets_wf(g: Grammar, sets: Seq<Vec<LR1Item>>) -> bool {
    &&& forall|s: int| 0 <= s < sets.len() ==> items_of((#[trigger] sets[s])@).no_duplicates()
    &&& forall|s: int| 0 <= s < sets.len() ==> items_wf(g, (#[trigger] sets[s])@)
    &&& forall|s: int| 0 <= s < sets.len() ==> (#[trigger] sets[s])@.len() > 0
    &&& forall|a: int, b: int|
        0 <= a < b < sets.len() ==> iset_of(sets[a]@) != iset_of(sets[b]@)
}

/// Goto-closedness: the goto of every state under every grammar symbol is
/// empty or again one of the states.
pub open spec fn goto_closed(g: Grammar, sets: Seq<Vec<LR1Item>>) -> bool {
    forall|s: int, x: SpecSym|
        0 <= s < sets.len() && gsym_listed(g, x) && #[trigger] goto_of(g, iset_of(sets[s]@), x)
            != Set::<SpecItem>::empty() ==> exists|j: int|
            0 <= j < sets.len() && iset_of(#[trigger] sets[j]@) == goto_of(
                g,
                iset_of(sets[s]@),
                x,
            )
}

/// The position of a state holding the same item set as `cand`, if any.
fn find_equal_set(sets: &Vec<Vec<LR1Item>>, cand: &Vec<LR1Item>) -> (r: Option<usize>)
    ensures
        match r {
            Some(j) => j < sets@.len() && iset_of(sets@[j as int]@) == iset_of(cand@),
            None => forall|j: int|
                0 <= j < sets@.len() ==> iset_of((#[trigger] sets@[j])@) != iset_of(cand@),
        },
{
    let mut k: usize = 0;
    while k < sets.len()
        invariant
            k <= sets@.len(),
            forall|j: int| 0 <= j < k ==> iset_of((#[trigger] sets@[j])@) != iset_of(cand@),
        decreases sets@.len() - k,
    {
        if item_set_eq(&sets[k], cand) {
            return Some(k);
        }
        k += 1;
    }
    None
}

impl LR1Parser {
    /// The goto of an item set under a symbol: advance every item whose
    /// dot stands before that symbol, then close the result.
    pub fn goto(&self, grammar: &Grammar, item_set: &Vec<LR1Item>, symbol: &Token) -> (r: Vec<
        LR1Item,
    >)
        requires
            first_computed(*grammar),
            items_wf(*grammar, item_set@),
        ensures
            items_of(r@).no_duplicates(),
            items_wf(*grammar, r@),
            iset_of(r@) == goto_of(*grammar, iset_of(item_set@), sym_of(*symbol)),
    {
        let ghost g = *grammar;
        let ghost s0 = iset_of(item_set@);
        let ghost x = sym_of(*symbol);
        let mut moved: Vec<LR1Item> = Vec::new();
        let mut i: usize = 0;
        proof {
            assert(items_of(moved@) =~= Seq::<SpecItem>::empty());
            assert(iset_of(moved@) =~= Set::<SpecItem>::empty());
        }
        while i < item_set.len()
            invariant
                i <= item_set@.len(),
                g == *grammar,
                first_computed(g),
                items_wf(g, item_set@),
                x == sym_of(*symbol),
                s0 == iset_of(item_set@),
                items_of(moved@).no_duplicates(),
                items_wf(g, moved@),
                iset_of(moved@).subset_of(advance_set(s0, x)),
                forall|j: int|
                    0 <= j < i && moves(item_of(#[trigger] item_set@[j]), x) ==> iset_of(
                        moved@,
                    ).contains(bump(item_of(item_set@[j]))),
            decreases item_set@.len() - i,
        {
            let dot = item_set[i].dot;
            if dot < item_set[i].body.len() {
                if sym_eq(&item_set[i].body[dot], symbol) {
                    let mut nit = item_set[i].duplicate();
                    nit.dot = dot + 1;
                    proof {
                        assert(item_of(item_set@[i as int]).body[dot as int] == sym_of(
                            item_set@[i as int].body@[dot as int],
                        ));
                        assert(moves(item_of(item_set@[i as int]), x));
                        assert(item_of(nit) =~= bump(item_of(item_set@[i as int])));
                    }
                    let ghost m0 = moved@;
                    if !items_contain(&moved, &nit) {
                        moved.push(nit);
                        proof {
                            lemma_iset_push(m0, moved@[m0.len() as int]);
                            lemma_items_push_no_dup(m0, moved@[m0.len() as int]);
                            assert(iset_of(item_set@).contains(item_of(item_set@[i as int]))) by {
                                assert(items_of(item_set@)[i as int] == item_of(
                                    item_set@[i as int],
                                ));
                            }
                            assert(advance_set(s0, x).contains(bump(item_of(item_set@[i as int]))));
                            assert(item_wf(g, bump(item_of(item_set@[i as int]))));
                            assert forall|y: int| 0 <= y < moved@.len() implies item_wf(
                                g,
                                item_of(#[trigger] moved@[y]),
                            ) by {
                                if y < m0.len() {
                                    assert(moved@[y] == m0[y]);
                                }
                            };
                        }
                    }
                }
            }
            i += 1;
        }
        proof {
            assert forall|nit: SpecItem| advance_set(s0, x).contains(nit) implies iset_of(
                moved@,
            ).contains(nit) by {
                let it = choose|it: SpecItem| #[trigger]
                    s0.contains(it) && it.dot < it.body.len() && it.body[it.dot] == x && nit
                        == bump(it);
                let j = choose|j: int| 0 <= j < items_of(item_set@).len() && items_of(item_set@)[j]
                    == it;
                assert(item_of(item_set@[j]) == it);
                assert(moves(item_of(item_set@[j]), x));
            };
            assert(iset_of(moved@) =~= advance_set(s0, x));
        }
        let r = self.closure(grammar, &moved);
        r
    }

    /// The canonical collection: state 0 is the closure of the augmented
    /// start item; every state's goto under every grammar symbol is added
    /// until the collection is goto-closed.  Every state equals its own
    /// closure, and every state past 0 carries a goto parent among its
    /// predecessors — the certificate that all states are reachable from
    /// state 0.
    pub fn compute_lr1_item_sets_core(&mut self, grammar: &Grammar, start_symbol: &Token)
        requires
            first_computed(*grammar),
            has_head(*grammar, sym_of(*start_symbol)),
        ensures
            final(self).tokens == old(self).tokens,
            final(self).error_list == old(self).error_list,
            final(self).status == old(self).status,
            final(self).part_table == old(self).part_table,
            final(self).pos == old(self).pos,
            final(self).reached_accept == old(self).reached_accept,
            final(self).action_table == old(self).action_table,
            final(self).goto_table == old(self).goto_table,
            final(self).lr1_sets@.len() >= 1,
            sets_wf(*grammar, final(self).lr1_sets@),
            goto_closed(*grammar, final(self).lr1_sets@),
            iset_of(final(self).lr1_sets@[0]@) == closure_of(
                *grammar,
                set![init_item(*grammar, sym_of(*start_symbol))],
            ),
            forall|s: int|
                0 <= s < final(self).lr1_sets@.len() ==> iset_of(
                    (#[trigger] final(self).lr1_sets@[s])@,
                ) == closure_of(*grammar, iset_of(final(self).lr1_sets@[s]@)),
            forall|s: int|
                1 <= s < final(self).lr1_sets@.len() ==> state_has_parent(
                    *grammar,
                    final(self).lr1_sets@,
                    s,
                ),
    {
        let ghost g = *grammar;
        let ghost h = sym_of(*start_symbol);
        let hi = grammar.find_head_idx(start_symbol);
        let initial_item = LR1Item {
            head: start_symbol.duplicate(),
            body: clone_toks(&grammar.pro_list[hi].alternatives[0]),
            dot: 0,
            lookahead: end_symbol(),
        };
        proof {
            assert(alts_of(g, h)[0] == syms_of(grammar.pro_list@[hi as int].alternatives@[0]@));
            assert(item_of(initial_item) =~= init_item(g, h));
            assert(item_wf(g, init_item(g, h))) by {
                assert forall|k: int|
                    0 <= k < init_item(g, h).body.len() && !(#[trigger] init_item(
                        g,
                        h,
                    ).body[k]).terminal implies has_head(g, init_item(g, h).body[k]) by {
                    assert(init_item(g, h).body[k] == sym_of(
                        grammar.pro_list@[hi as int].alternatives@[0]@[k],
                    ));
                };
            }
        }
        let mut seed: Vec<LR1Item> = Vec::new();
        seed.push(initial_item);
        proof {
            assert(items_of(seed@) =~= Seq::<SpecItem>::empty().push(init_item(g, h)));
            assert(items_of(seed@).no_duplicates());
            assert(iset_of(seed@) =~= set![init_item(g, h)]) by {
                push_to_set::<SpecItem>(Seq::empty(), init_item(g, h));
                assert(Seq::<SpecItem>::empty().to_set() =~= Set::<SpecItem>::empty());
            }
            assert forall|y: int| 0 <= y < seed@.len() implies item_wf(
                g,
                item_of(#[trigger] seed@[y]),
            ) by {};
        }
        let state0 = self.closure(grammar, &seed);
        let mut item_sets: Vec<Vec<LR1Item>> = Vec::new();
        item_sets.push(state0);
        proof {
            lemma_closure_base(g, set![init_item(g, h)]);
            assert(set![init_item(g, h)].contains(init_item(g, h)));
            assert(iset_of(item_sets@[0]@).contains(init_item(g, h)));
            if item_sets@[0]@.len() == 0 {
                assert(items_of(item_sets@[0]@) =~= Seq::<SpecItem>::empty());
                assert(iset_of(item_sets@[0]@) =~= Set::<SpecItem>::empty());
            }
            assert(sets_wf(g, item_sets@));
            lemma_closure_idempotent(g, set![init_item(g, h)]);
        }
        let mut i: usize = 0;
        while i < item_sets.len()
            invariant
                i <= item_sets@.len(),
                1 <= item_sets@.len(),
                g == *grammar,
                first_computed(g),
                iset_of(item_sets@[0]@) == closure_of(g, set![init_item(g, h)]),
                sets_wf(g, item_sets@),
                forall|s2: int|
                    0 <= s2 < item_sets@.len() ==> iset_of((#[trigger] item_sets@[s2])@)
                        == closure_of(g, iset_of(item_sets@[s2]@)),
                forall|s2: int|
                    1 <= s2 < item_sets@.len() ==> state_has_parent(g, item_sets@, s2),
                forall|s: int, x: SpecSym|
                    0 <= s < i && gsym_listed(g, x) && #[trigger] goto_of(
                        g,
                        iset_of(item_sets@[s]@),
                        x,
                    ) != Set::<SpecItem>::empty() ==> exists|j: int|
                        0 <= j < item_sets@.len() && iset_of((#[trigger] item_sets@[j])@)
                            == goto_of(g, iset_of(item_sets@[s]@), x),
            decreases usize::MAX - i,
        {
            let mut t: usize = 0;
            while t < grammar.token_list.len()
                invariant
                    t <= grammar.token_list@.len(),
                    i < item_sets@.len(),
                    g == *grammar,
                    first_computed(g),
                    iset_of(item_sets@[0]@) == closure_of(g, set![init_item(g, h)]),
                    sets_wf(g, item_sets@),
                    forall|s2: int|
                        0 <= s2 < item_sets@.len() ==> iset_of((#[trigger] item_sets@[s2])@)
                            == closure_of(g, iset_of(item_sets@[s2]@)),
                    forall|s2: int|
                        1 <= s2 < item_sets@.len() ==> state_has_parent(g, item_sets@, s2),
                    forall|s: int, x: SpecSym|
                        0 <= s < i && gsym_listed(g, x) && #[trigger] goto_of(
                            g,
                            iset_of(item_sets@[s]@),
                            x,
                        ) != Set::<SpecItem>::empty() ==> exists|j: int|
                            0 <= j < item_sets@.len() && iset_of((#[trigger] item_sets@[j])@)
                                == goto_of(g, iset_of(item_sets@[s]@), x),
                    forall|z: int|
                        0 <= z < t && goto_of(
                            g,
                            iset_of(item_sets@[i as int]@),
                            (SpecSym { terminal: true, name: (#[trigger] grammar.token_list@[z])@ }),
                        ) != Set::<SpecItem>::empty() ==> exists|j: int|
                            0 <= j < item_sets@.len() && iset_of((#[trigger] item_sets@[j])@)
                                == goto_of(
                                g,
                                iset_of(item_sets@[i as int]@),
                                (SpecSym { terminal: true, name: grammar.token_list@[z]@ }),
                            ),
                decreases grammar.token_list@.len() - t,
            {
                let symbol = Token::new_terminal(grammar.token_list[t].clone(), None);
                let next_set = self.goto(grammar, &item_sets[i], &symbol);
                let ghost sets0 = item_sets@;
                let ghost xs = sym_of(symbol);
                let ghost gres = goto_of(g, iset_of(item_sets@[i as int]@), xs);
                let ghost nv = next_set@;
                proof {
                    assert(xs == (SpecSym { terminal: true, name: grammar.token_list@[t as int]@ }))
                        by {
                        assert(xs =~= (SpecSym {
                            terminal: true,
                            name: grammar.token_list@[t as int]@,
                        }));
                    }
                }
                if next_set.len() > 0 {
                    let found = find_equal_set(&item_sets, &next_set);
                    if found.is_none() {
                        item_sets.push(next_set);
                        proof {
                            let sets1 = item_sets@;
                            assert(sets1[sets0.len() as int]@ == nv);
                            assert forall|a: int, b: int|
                                0 <= a < b < sets1.len() implies iset_of(sets1[a]@) != iset_of(
                                sets1[b]@,
                            ) by {
                                if b < sets0.len() {
                                    assert(sets1[a] == sets0[a]);
                                    assert(sets1[b] == sets0[b]);
                                } else {
                                    assert(sets1[a] == sets0[a]);
                                    assert(iset_of(sets0[a]@) != iset_of(nv));
                                }
                            };
                            assert forall|s: int|
                                0 <= s < sets1.len() implies items_of(
                                (#[trigger] sets1[s])@,
                            ).no_duplicates() && items_wf(g, sets1[s]@) && sets1[s]@.len() > 0 by {
                                if s < sets0.len() {
                                    assert(sets1[s] == sets0[s]);
                                }
                            };
                            assert(sets_wf(g, sets1));
                            assert forall|s2: int|
                                0 <= s2 < sets1.len() implies iset_of((#[trigger] sets1[s2])@)
                                == closure_of(g, iset_of(sets1[s2]@)) by {
                                if s2 < sets0.len() {
                                    assert(sets1[s2] == sets0[s2]);
                                } else {
                                    lemma_closure_idempotent(
                                        g,
                                        advance_set(iset_of(sets0[i as int]@), xs),
                                    );
                                    assert(iset_of(sets1[s2]@) == gres);
                                }
                            };
                            assert forall|s2: int|
                                1 <= s2 < sets1.len() implies state_has_parent(g, sets1, s2) by {
                                if s2 < sets0.len() {
                                    assert(state_has_parent(g, sets0, s2));
                                    assert(sets1[s2] == sets0[s2]);
                                    let (s3, x) = choose|s3: int, x: SpecSym|
                                        0 <= s3 < s2 && gsym_listed(g, x) && iset_of(sets0[s2]@)
                                            == #[trigger] goto_of(g, iset_of(sets0[s3]@), x);
                                    assert(sets1[s3] == sets0[s3]);
                                    assert(iset_of(sets1[s2]@) == goto_of(
                                        g,
                                        iset_of(sets1[s3]@),
                                        x,
                                    ));
                                } else {
                                    assert(gsym_listed(g, xs));
                                    assert(sets1[i as int] == sets0[i as int]);
                                    assert(iset_of(sets1[s2]@) == goto_of(
                                        g,
                                        iset_of(sets1[i as int]@),
                                        xs,
                                    ));
                                    assert(0 <= i < s2);
                                }
                            };
                        }
                    }
                    proof {
                        assert(exists|j: int|
                            0 <= j < item_sets@.len() && iset_of((#[trigger] item_sets@[j])@)
                                == iset_of(nv)) by {
                            if found.is_none() {
                                assert(iset_of(item_sets@[sets0.len() as int]@) == iset_of(nv));
                            } else {
                                let j0 = found->0;
                                assert(iset_of(item_sets@[j0 as int]@) == iset_of(nv));
                            }
                        };
                    }
                } else {
                    proof {
                        assert(items_of(next_set@) =~= Seq::<SpecItem>::empty());
                        assert(gres =~= Set::<SpecItem>::empty());
                    }
                }
                proof {
                    let sets1 = item_sets@;
                    assert forall|j: int| 0 <= j < sets0.len() implies #[trigger] sets1[j]
                        == sets0[j] by {};
                    assert(sets1[i as int] == sets0[i as int]);
                    assert(gres != Set::<SpecItem>::empty() ==> exists|j: int|
                        0 <= j < sets1.len() && iset_of((#[trigger] sets1[j])@) == gres) by {
                        if gres != Set::<SpecItem>::empty() {
                            assert(iset_of(nv) == gres);
                            if nv.len() == 0 {
                                assert(items_of(nv) =~= Seq::<SpecItem>::empty());
                                assert(iset_of(nv) =~= Set::<SpecItem>::empty());
                            }
                            let j0 = choose|j0: int|
                                0 <= j0 < sets1.len() && iset_of((#[trigger] sets1[j0])@)
                                    == iset_of(nv);
                            assert(iset_of(sets1[j0]@) == gres);
                        }
                    }
                    assert forall|s: int, x: SpecSym|
                        0 <= s < i && gsym_listed(g, x) && #[trigger] goto_of(
                            g,
                            iset_of(sets1[s]@),
                            x,
                        ) != Set::<SpecItem>::empty() implies exists|j: int|
                        0 <= j < sets1.len() && iset_of((#[trigger] sets1[j])@) == goto_of(
                            g,
                            iset_of(sets1[s]@),
                            x,
                        ) by {
                        assert(sets1[s] == sets0[s]);
                        let j0 = choose|j0: int|
                            0 <= j0 < sets0.len() && iset_of((#[trigger] sets0[j0])@) == goto_of(
                                g,
                                iset_of(sets0[s]@),
                                x,
                            );
                        assert(iset_of(sets1[j0]@) == goto_of(g, iset_of(sets1[s]@), x));
                    };
                    assert forall|z: int|
                        0 <= z < t + 1 && goto_of(
                            g,
                            iset_of(sets1[i as int]@),
                            (SpecSym { terminal: true, name: (#[trigger] grammar.token_list@[z])@ }),
                        ) != Set::<SpecItem>::empty() implies exists|j: int|
                        0 <= j < sets1.len() && iset_of((#[trigger] sets1[j])@) == goto_of(
                            g,
                            iset_of(sets1[i as int]@),
                            (SpecSym { terminal: true, name: grammar.token_list@[z]@ }),
                        ) by {
                        if z < t {
                            let xz = SpecSym { terminal: true, name: grammar.token_list@[z]@ };
                            let j0 = choose|j0: int|
                                0 <= j0 < sets0.len() && iset_of((#[trigger] sets0[j0])@)
                                    == goto_of(g, iset_of(sets0[i as int]@), xz);
                            assert(iset_of(sets1[j0]@) == goto_of(g, iset_of(sets1[i as int]@), xz));
                        } else {
                            assert((SpecSym { terminal: true, name: grammar.token_list@[z]@ })
                                == xs);
                        }
                    };
                }
                t += 1;
            }
            let mut p: usize = 0;
            while p < grammar.pro_list.len()
                invariant
                    p <= grammar.pro_list@.len(),
                    i < item_sets@.len(),
                    g == *grammar,
                    first_computed(g),
                    iset_of(item_sets@[0]@) == closure_of(g, set![init_item(g, h)]),
                    sets_wf(g, item_sets@),
                    forall|s2: int|
                        0 <= s2 < item_sets@.len() ==> iset_of((#[trigger] item_sets@[s2])@)
                            == closure_of(g, iset_of(item_sets@[s2]@)),
                    forall|s2: int|
                        1 <= s2 < item_sets@.len() ==> state_has_parent(g, item_sets@, s2),
                    forall|s: int, x: SpecSym|
                        0 <= s < i && gsym_listed(g, x) && #[trigger] goto_of(
                            g,
                            iset_of(item_sets@[s]@),
                            x,
                        ) != Set::<SpecItem>::empty() ==> exists|j: int|
                            0 <= j < item_sets@.len() && iset_of((#[trigger] item_sets@[j])@)
                                == goto_of(g, iset_of(item_sets@[s]@), x),
                    forall|x: SpecSym|
                        x.terminal && name_listed(g.token_list@, x.name) && #[trigger] goto_of(
                            g,
                            iset_of(item_sets@[i as int]@),
                            x,
                        ) != Set::<SpecItem>::empty() ==> exists|j: int|
                            0 <= j < item_sets@.len() && iset_of((#[trigger] item_sets@[j])@)
                                == goto_of(g, iset_of(item_sets@[i as int]@), x),
                    forall|z: int|
                        0 <= z < p && goto_of(
                            g,
                            iset_of(item_sets@[i as int]@),
                            sym_of((#[trigger] grammar.pro_list@[z]).head),
                        ) != Set::<SpecItem>::empty() ==> exists|j: int|
                            0 <= j < item_sets@.len() && iset_of((#[trigger] item_sets@[j])@)
                                == goto_of(
                                g,
                                iset_of(item_sets@[i as int]@),
                                sym_of(grammar.pro_list@[z].head),
                            ),
                decreases grammar.pro_list@.len() - p,
            {
                let symbol = grammar.pro_list[p].head.duplicate();
                let next_set = self.goto(grammar, &item_sets[i], &symbol);
                let ghost sets0 = item_sets@;
                let ghost xs = sym_of(symbol);
                let ghost gres = goto_of(g, iset_of(item_sets@[i as int]@), xs);
                let ghost nv = next_set@;
                if next_set.len() > 0 {
                    let found = find_equal_set(&item_sets, &next_set);
                    if found.is_none() {
                        item_sets.push(next_set);
                        proof {
                            let sets1 = item_sets@;
                            assert(sets1[sets0.len() as int]@ == nv);
                            assert forall|a: int, b: int|
                                0 <= a < b < sets1.len() implies iset_of(sets1[a]@) != iset_of(
                                sets1[b]@,
                            ) by {
                                if b < sets0.len() {
                                    assert(sets1[a] == sets0[a]);
                                    assert(sets1[b] == sets0[b]);
                                } else {
                                    assert(sets1[a] == sets0[a]);
                                    assert(iset_of(sets0[a]@) != iset_of(nv));
                                }
                            };
                            assert forall|s: int|
                                0 <= s < sets1.len() implies items_of(
                                (#[trigger] sets1[s])@,
                            ).no_duplicates() && items_wf(g, sets1[s]@) && sets1[s]@.len() > 0 by {
                                if s < sets0.len() {
                                    assert(sets1[s] == sets0[s]);
                                }
                            };
                            assert(sets_wf(g, sets1));
                            assert forall|s2: int|
                                0 <= s2 < sets1.len() implies iset_of((#[trigger] sets1[s2])@)
                                == closure_of(g, iset_of(sets1[s2]@)) by {
                                if s2 < sets0.len() {
                                    assert(sets1[s2] == sets0[s2]);
                                } else {
                                    lemma_closure_idempotent(
                                        g,
                                        advance_set(iset_of(sets0[i as int]@), xs),
                                    );
                                    assert(iset_of(sets1[s2]@) == gres);
                                }
                            };
                            assert forall|s2: int|
                                1 <= s2 < sets1.len() implies state_has_parent(g, sets1, s2) by {
                                if s2 < sets0.len() {
                                    assert(state_has_parent(g, sets0, s2));
                                    assert(sets1[s2] == sets0[s2]);
                                    let (s3, x) = choose|s3: int, x: SpecSym|
                                        0 <= s3 < s2 && gsym_listed(g, x) && iset_of(sets0[s2]@)
                                            == #[trigger] goto_of(g, iset_of(sets0[s3]@), x);
                                    assert(sets1[s3] == sets0[s3]);
                                    assert(iset_of(sets1[s2]@) == goto_of(
                                        g,
                                        iset_of(sets1[s3]@),
                                        x,
                                    ));
                                } else {
                                    assert(gsym_listed(g, xs));
                                    assert(sets1[i as int] == sets0[i as int]);
                                    assert(iset_of(sets1[s2]@) == goto_of(
                                        g,
                                        iset_of(sets1[i as int]@),
                                        xs,
                                    ));
                                    assert(0 <= i < s2);
                                }
                            };
                        }
                    }
                    proof {
                        assert(exists|j: int|
                            0 <= j < item_sets@.len() && iset_of((#[trigger] item_sets@[j])@)
                                == iset_of(nv)) by {
                            if found.is_none() {
                                assert(iset_of(item_sets@[sets0.len() as int]@) == iset_of(nv));
                            } else {
                                let j0 = found->0;
                                assert(iset_of(item_sets@[j0 as int]@) == iset_of(nv));
                            }
                        };
                    }
                } else {
                    proof {
                        assert(items_of(next_set@) =~= Seq::<SpecItem>::empty());
                        assert(gres =~= Set::<SpecItem>::empty());
                    }
                }
                proof {
                    let sets1 = item_sets@;
                    assert forall|j: int| 0 <= j < sets0.len() implies #[trigger] sets1[j]
                        == sets0[j] by {};
                    assert(sets1[i as int] == sets0[i as int]);
                    assert(gres != Set::<SpecItem>::empty() ==> exists|j: int|
                        0 <= j < sets1.len() && iset_of((#[trigger] sets1[j])@) == gres) by {
                        if gres != Set::<SpecItem>::empty() {
                            assert(iset_of(nv) == gres);
                            if nv.len() == 0 {
                                assert(items_of(nv) =~= Seq::<SpecItem>::empty());
                                assert(iset_of(nv) =~= Set::<SpecItem>::empty());
                            }
                            let j0 = choose|j0: int|
                                0 <= j0 < sets1.len() && iset_of((#[trigger] sets1[j0])@)
                                    == iset_of(nv);
                            assert(iset_of(sets1[j0]@) == gres);
                        }
                    }
                    assert forall|s: int, x: SpecSym|
                        0 <= s < i && gsym_listed(g, x) && #[trigger] goto_of(
                            g,
                            iset_of(sets1[s]@),
                            x,
                        ) != Set::<SpecItem>::empty() implies exists|j: int|
                        0 <= j < sets1.len() && iset_of((#[trigger] sets1[j])@) == goto_of(
                            g,
                            iset_of(sets1[s]@),
                            x,
                        ) by {
                        assert(sets1[s] == sets0[s]);
                        let j0 = choose|j0: int|
                            0 <= j0 < sets0.len() && iset_of((#[trigger] sets0[j0])@) == goto_of(
                                g,
                                iset_of(sets0[s]@),
                                x,
                            );
                        assert(iset_of(sets1[j0]@) == goto_of(g, iset_of(sets1[s]@), x));
                    };
                    assert forall|x: SpecSym|
                        x.terminal && name_listed(g.token_list@, x.name) && #[trigger] goto_of(
                            g,
                            iset_of(sets1[i as int]@),
                            x,
                        ) != Set::<SpecItem>::empty() implies exists|j: int|
                        0 <= j < sets1.len() && iset_of((#[trigger] sets1[j])@) == goto_of(
                            g,
                            iset_of(sets1[i as int]@),
                            x,
                        ) by {
                        let j0 = choose|j0: int|
                            0 <= j0 < sets0.len() && iset_of((#[trigger] sets0[j0])@) == goto_of(
                                g,
                                iset_of(sets0[i as int]@),
                                x,
                            );
                        assert(iset_of(sets1[j0]@) == goto_of(g, iset_of(sets1[i as int]@), x));
                    };
                    assert forall|z: int|
                        0 <= z < p + 1 && goto_of(
                            g,
                            iset_of(sets1[i as int]@),
                            sym_of((#[trigger] grammar.pro_list@[z]).head),
                        ) != Set::<SpecItem>::empty() implies exists|j: int|
                        0 <= j < sets1.len() && iset_of((#[trigger] sets1[j])@) == goto_of(
                            g,
                            iset_of(sets1[i as int]@),
                            sym_of(grammar.pro_list@[z].head),
                        ) by {
                        if z < p {
                            let xz = sym_of(grammar.pro_list@[z].head);
                            let j0 = choose|j0: int|
                                0 <= j0 < sets0.len() && iset_of((#[trigger] sets0[j0])@)
                                    == goto_of(g, iset_of(sets0[i as int]@), xz);
                            assert(iset_of(sets1[j0]@) == goto_of(g, iset_of(sets1[i as int]@), xz));
                        } else {
                            assert(sym_of(grammar.pro_list@[z].head) == xs);
                        }
                    };
                }
                p += 1;
            }
            proof {
                assert forall|x: SpecSym|
                    gsym_listed(g, x) && #[trigger] goto_of(g, iset_of(item_sets@[i as int]@), x)
                        != Set::<SpecItem>::empty() implies exists|j: int|
                        0 <= j < item_sets@.len() && iset_of((#[trigger] item_sets@[j])@)
                            == goto_of(g, iset_of(item_sets@[i as int]@), x) by {
                    if !x.terminal {
                        let z = choose|z: int|
                            0 <= z < g.pro_list@.len() && sym_of(
                                (#[trigger] g.pro_list@[z]).head,
                            ) == x;
                        assert(goto_of(g, iset_of(item_sets@[i as int]@), sym_of(g.pro_list@[z].head))
                            != Set::<SpecItem>::empty());
                    }
                };
            }
            i += 1;
        }
        self.lr1_sets = item_sets;
    }
}

/// The specification-level identity of an action.
#[verifier::ext_equal]
pub enum SpecAction {
    Shift(int),
    Reduce(SpecSym, Seq<SpecSym>),
    Accept,
}

/// The specification-level identity of an action-table entry.
#[verifier::ext_equal]
pub struct SpecAEntry {
    pub state: int,
    pub symbol: SpecSym,
    pub action: SpecAction,
}

/// The specification-level identity of a goto-table entry.
#[verifier::ext_equal]
pub struct SpecGEntry {
    pub state: int,
    pub symbol: SpecSym,
    pub target: int,
}

/// The action a concrete `Action` stands for.
pub open spec fn action_of(a: Action) -> SpecAction {
    match a {
        Action::Shift(s) => SpecAction::Shift(s as int),
        Action::Reduce(h, b) => SpecAction::Reduce(sym_of(h), syms_of(b@)),
        Action::Accept => SpecAction::Accept,
    }
}

/// The entry a concrete `ActionEntry` stands for.
pub open spec fn aentry_of(e: ActionEntry) -> SpecAEntry {
    SpecAEntry { state: e.state as int, symbol: sym_of(e.symbol), action: action_of(e.action) }
}

/// The entry a concrete `GotoEntry` stands for.
pub open spec fn gentry_of(e: GotoEntry) -> SpecGEntry {
    SpecGEntry { state: e.state as int, symbol: sym_of(e.symbol), target: e.target as int }
}

/// The action table's entry views.
pub open spec fn atab_of(v: Seq<ActionEntry>) -> Seq<SpecAEntry> {
    v.map_values(|e: ActionEntry| aentry_of(e))
}

/// The goto table's entry views.
pub open spec fn gtab_of(v: Seq<GotoEntry>) -> Seq<SpecGEntry> {
    v.map_values(|e: GotoEntry| gentry_of(e))
}

/// Whether the action table has an entry at `(s, x)`.
pub open spec fn has_akey(t: Seq<SpecAEntry>, s: int, x: SpecSym) -> bool {
    exists|i: int| 0 <= i < t.len() && (#[trigger] t[i]).state == s && t[i].symbol == x
}

/// The position of the action entry at `(s, x)`.
pub open spec fn akey_idx(t: Seq<SpecAEntry>, s: int, x: SpecSym) -> int {
    choose|i: int| 0 <= i < t.len() && (#[trigger] t[i]).state == s && t[i].symbol == x
}

/// Whether the goto table has an entry at `(s, x)`.
pub open spec fn has_gkey(t: Seq<SpecGEntry>, s: int, x: SpecSym) -> bool {
    exists|i: int| 0 <= i < t.len() && (#[trigger] t[i]).state == s && t[i].symbol == x
}

/// The position of the goto entry at `(s, x)`.
pub open spec fn gkey_idx(t: Seq<SpecGEntry>, s: int, x: SpecSym) -> int {
    choose|i: int| 0 <= i < t.len() && (#[trigger] t[i]).state == s && t[i].symbol == x
}

/// No two action entries share a key.
pub open spec fn akeys_unique(t: Seq<SpecAEntry>) -> bool {
    forall|i: int, j: int|
        0 <= i < j < t.len() ==> !((#[trigger] t[i]).state == (#[trigger] t[j]).state && t[i].symbol
            == t[j].symbol)
}

/// No two goto entries share a key.
pub open spec fn gkeys_unique(t: Seq<SpecGEntry>) -> bool {
    forall|i: int, j: int|
        0 <= i < j < t.len() ==> !((#[trigger] t[i]).state == (#[trigger] t[j]).state && t[i].symbol
            == t[j].symbol)
}

/// Insert-or-replace at the entry's key: the last write at a key wins.
pub open spec fn aupsert(t: Seq<SpecAEntry>, e: SpecAEntry) -> Seq<SpecAEntry> {
    if has_akey(t, e.state, e.symbol) {
        t.update(akey_idx(t, e.state, e.symbol), e)
    } else {
        t.push(e)
    }
}

/// Insert-or-replace at the entry's key: the last write at a key wins.
pub open spec fn gupsert(t: Seq<SpecGEntry>, e: SpecGEntry) -> Seq<SpecGEntry> {
    if has_gkey(t, e.state, e.symbol) {
        t.update(gkey_idx(t, e.state, e.symbol), e)
    } else {
        t.push(e)
    }
}

/// The position of the state holding the item set `t`.
pub open spec fn state_idx(g: Grammar, sets: Seq<Vec<LR1Item>>, t: Set<SpecItem>) -> int {
    choose|j: int| 0 <= j < sets.len() && iset_of((#[trigger] sets[j])@) == t
}

/// The table entries one item contributes: a shift or goto on the symbol
/// after its dot, an accept for the completed augmented start item under
/// the end marker, or a reduce under its lookahead.
pub open spec fn tab_step(
    g: Grammar,
    sets: Seq<Vec<LR1Item>>,
    s: int,
    it: SpecItem,
    tabs: (Seq<SpecAEntry>, Seq<SpecGEntry>),
) -> (Seq<SpecAEntry>, Seq<SpecGEntry>) {
    if it.dot < it.body.len() {
        if it.body[it.dot].terminal {
            (
                aupsert(
                    tabs.0,
                    SpecAEntry {
                        state: s,
                        symbol: it.body[it.dot],
                        action: SpecAction::Shift(
                            state_idx(g, sets, goto_of(g, iset_of(sets[s]@), it.body[it.dot])),
                        ),
                    },
                ),
                tabs.1,
            )
        } else {
            (
                tabs.0,
                gupsert(
                    tabs.1,
                    SpecGEntry {
                        state: s,
                        symbol: it.body[it.dot],
                        target: state_idx(g, sets, goto_of(g, iset_of(sets[s]@), it.body[it.dot])),
                    },
                ),
            )
        }
    } else if it.head == sym_of(g.start_symbol) && it.lookahead == end_sym() {
        (
            aupsert(
                tabs.0,
                SpecAEntry { state: s, symbol: end_sym(), action: SpecAction::Accept },
            ),
            tabs.1,
        )
    } else {
        (
            aupsert(
                tabs.0,
                SpecAEntry {
                    state: s,
                    symbol: it.lookahead,
                    action: SpecAction::Reduce(it.head, it.body),
                },
            ),
            tabs.1,
        )
    }
}

/// The tables after folding the first `s` states and the first `k` items
/// of state `s`, in order.
pub open spec fn tabs_fold(g: Grammar, sets: Seq<Vec<LR1Item>>, s: int, k: int) -> (
    Seq<SpecAEntry>,
    Seq<SpecGEntry>,
)
    decreases s, k,
{
    if s < 0 || k < 0 {
        (Seq::empty(), Seq::empty())
    } else if s == 0 && k == 0 {
        (Seq::empty(), Seq::empty())
    } else if k == 0 {
        tabs_fold(g, sets, s - 1, sets[s - 1]@.len() as int)
    } else {
        tab_step(g, sets, s, item_of(sets[s]@[k - 1]), tabs_fold(g, sets, s, k - 1))
    }
}

/// The complete tables of the canonical collection.
pub open spec fn tabs_of(g: Grammar, sets: Seq<Vec<LR1Item>>) -> (Seq<SpecAEntry>, Seq<SpecGEntry>) {
    tabs_fold(g, sets, sets.len() as int, 0)
}

/// Running the table builder twice over the same grammar and canonical
/// collection yields identical action and goto tables: their contents are
/// a function of the inputs alone.
pub proof fn lemma_tables_idempotent(
    g: Grammar,
    sets: Seq<Vec<LR1Item>>,
    a1: Seq<ActionEntry>,
    g1: Seq<GotoEntry>,
    a2: Seq<ActionEntry>,
    g2: Seq<GotoEntry>,
)
    requires
        atab_of(a1) == tabs_of(g, sets).0,
        gtab_of(g1) == tabs_of(g, sets).1,
        atab_of(a2) == tabs_of(g, sets).0,
        gtab_of(g2) == tabs_of(g, sets).1,
    ensures
        atab_of(a1) == atab_of(a2),
        gtab_of(g1) == gtab_of(g2),
{
}

/// Replaces the action at `(state, symbol)`, or appends it when the key
/// is new.
fn insert_action(tab: &mut Vec<ActionEntry>, state: usize, symbol: Token, action: Action)
    requires
        akeys_unique(atab_of(old(tab)@)),
    ensures
        akeys_unique(atab_of(final(tab)@)),
        atab_of(final(tab)@) == aupsert(
            atab_of(old(tab)@),
            (SpecAEntry {
                state: state as int,
                symbol: sym_of(symbol),
                action: action_of(action),
            }),
        ),
{
    let ghost e = SpecAEntry {
        state: state as int,
        symbol: sym_of(symbol),
        action: action_of(action),
    };
    let ghost t0 = atab_of(tab@);
    let mut k: usize = 0;
    while k < tab.len()
        invariant
            k <= tab@.len(),
            t0 == atab_of(tab@),
            t0 == atab_of(old(tab)@),
            akeys_unique(t0),
            e == (SpecAEntry {
                state: state as int,
                symbol: sym_of(symbol),
                action: action_of(action),
            }),
            forall|i: int| 0 <= i < k ==> !((#[trigger] t0[i]).state == e.state && t0[i].symbol == e.symbol),
        decreases tab@.len() - k,
    {
        let hit = tab[k].state == state && sym_eq(&tab[k].symbol, &symbol);
        if hit {
            proof {
                assert(t0[k as int] == aentry_of(tab@[k as int]));
                assert(tab@[k as int].state == state);
                assert(sym_of(tab@[k as int].symbol) == sym_of(symbol));
                assert(t0[k as int].state == e.state && t0[k as int].symbol == e.symbol);
                assert(has_akey(t0, e.state, e.symbol));
                let c = akey_idx(t0, e.state, e.symbol);
                assert(0 <= c < t0.len() && t0[c].state == e.state && t0[c].symbol == e.symbol);
                if c != k {
                    assert(false);
                }
            }
            tab[k] = ActionEntry { state, symbol, action };
            proof {
                assert(atab_of(tab@) =~= t0.update(k as int, e));
                assert(akeys_unique(atab_of(tab@))) by {
                    let t1 = atab_of(tab@);
                    assert forall|i: int, j: int| 0 <= i < j < t1.len() implies !((
                    #[trigger] t1[i]).state == (#[trigger] t1[j]).state && t1[i].symbol
                        == t1[j].symbol) by {
                        assert(t1[i] == if i == k { e } else { t0[i] });
                        assert(t1[j] == if j == k { e } else { t0[j] });
                    };
                }
            }
            return ;
        }
        k += 1;
    }
    let ghost t0b = atab_of(tab@);
    tab.push(ActionEntry { state, symbol, action });
    proof {
        assert(!has_akey(t0, e.state, e.symbol));
        assert(atab_of(tab@) =~= t0.push(e));
        assert(akeys_unique(atab_of(tab@))) by {
            let t1 = atab_of(tab@);
            assert forall|i: int, j: int| 0 <= i < j < t1.len() implies !((#[trigger] t1[i]).state
                == (#[trigger] t1[j]).state && t1[i].symbol == t1[j].symbol) by {
                if j == t1.len() - 1 {
                    assert(t1[i] == t0[i]);
                    assert(t1[j] == e);
                } else {
                    assert(t1[i] == t0[i]);
                    assert(t1[j] == t0[j]);
                }
            };
        }
    }
}

/// Replaces the goto target at `(state, symbol)`, or appends it when the
/// key is new.
fn insert_goto(tab: &mut Vec<GotoEntry>, state: usize, symbol: Token, target: usize)
    requires
        gkeys_unique(gtab_of(old(tab)@)),
    ensures
        gkeys_unique(gtab_of(final(tab)@)),
        gtab_of(final(tab)@) == gupsert(
            gtab_of(old(tab)@),
            (SpecGEntry { state: state as int, symbol: sym_of(symbol), target: target as int }),
        ),
{
    let ghost e = SpecGEntry { state: state as int, symbol: sym_of(symbol), target: target as int };
    let ghost t0 = gtab_of(tab@);
    let mut k: usize = 0;
    while k < tab.len()
        invariant
            k <= tab@.len(),
            t0 == gtab_of(tab@),
            t0 == gtab_of(old(tab)@),
            gkeys_unique(t0),
            e == (SpecGEntry {
                state: state as int,
                symbol: sym_of(symbol),
                target: target as int,
            }),
            forall|i: int| 0 <= i < k ==> !((#[trigger] t0[i]).state == e.state && t0[i].symbol == e.symbol),
        decreases tab@.len() - k,
    {
        let hit = tab[k].state == state && sym_eq(&tab[k].symbol, &symbol);
        if hit {
            proof {
                assert(t0[k as int] == gentry_of(tab@[k as int]));
                assert(t0[k as int].state == e.state && t0[k as int].symbol == e.symbol);
                assert(has_gkey(t0, e.state, e.symbol));
                let c = gkey_idx(t0, e.state, e.symbol);
                assert(0 <= c < t0.len() && t0[c].state == e.state && t0[c].symbol == e.symbol);
                if c != k {
                    assert(false);
                }
            }
            tab[k] = GotoEntry { state, symbol, target };
            proof {
                assert(gtab_of(tab@) =~= t0.update(k as int, e));
                assert(gkeys_unique(gtab_of(tab@))) by {
                    let t1 = gtab_of(tab@);
                    assert forall|i: int, j: int| 0 <= i < j < t1.len() implies !((
                    #[trigger] t1[i]).state == (#[trigger] t1[j]).state && t1[i].symbol
                        == t1[j].symbol) by {
                        assert(t1[i] == if i == k { e } else { t0[i] });
                        assert(t1[j] == if j == k { e } else { t0[j] });
                    };
                }
            }
            return ;
        }
        k += 1;
    }
    tab.push(GotoEntry { state, symbol, target });
    proof {
        assert(!has_gkey(t0, e.state, e.symbol));
        assert(gtab_of(tab@) =~= t0.push(e));
        assert(gkeys_unique(gtab_of(tab@))) by {
            let t1 = gtab_of(tab@);
            assert forall|i: int, j: int| 0 <= i < j < t1.len() implies !((#[trigger] t1[i]).state
                == (#[trigger] t1[j]).state && t1[i].symbol == t1[j].symbol) by {
                if j == t1.len() - 1 {
                    assert(t1[i] == t0[i]);
                    assert(t1[j] == e);
                } else {
                    assert(t1[i] == t0[i]);
                    assert(t1[j] == t0[j]);
                }
            };
        }
    }
}

/// Whether some table row belongs to state `s`.
pub open spec fn state_has_row(at: Seq<SpecAEntry>, gt: Seq<SpecGEntry>, s: int) -> bool {
    (exists|i: int| 0 <= i < at.len() && (#[trigger] at[i]).state == s) || (exists|i: int|
        0 <= i < gt.len() && (#[trigger] gt[i]).state == s)
}

/// An insert-or-replace adds a row of its entry's state and keeps a row
/// of every state that already had one.
proof fn lemma_aupsert_states(t0: Seq<SpecAEntry>, e: SpecAEntry)
    ensures
        forall|i0: int|
            0 <= i0 < t0.len() ==> exists|i: int|
                0 <= i < aupsert(t0, e).len() && (#[trigger] aupsert(t0, e)[i]).state == (
                #[trigger] t0[i0]).state,
        exists|i: int|
            0 <= i < aupsert(t0, e).len() && (#[trigger] aupsert(t0, e)[i]).state == e.state,
{
    let t1 = aupsert(t0, e);
    if has_akey(t0, e.state, e.symbol) {
        let c = akey_idx(t0, e.state, e.symbol);
        assert(0 <= c < t0.len() && t0[c].state == e.state && t0[c].symbol == e.symbol);
        assert(t1[c].state == e.state);
        assert forall|i0: int| 0 <= i0 < t0.len() implies exists|i: int|
            0 <= i < t1.len() && (#[trigger] t1[i]).state == (#[trigger] t0[i0]).state by {
            if i0 == c {
                assert(t1[c].state == t0[i0].state);
            } else {
                assert(t1[i0].state == t0[i0].state);
            }
        };
    } else {
        assert(t1[t0.len() as int].state == e.state);
        assert forall|i0: int| 0 <= i0 < t0.len() implies exists|i: int|
            0 <= i < t1.len() && (#[trigger] t1[i]).state == (#[trigger] t0[i0]).state by {
            assert(t1[i0].state == t0[i0].state);
        };
    }
}

/// An insert-or-replace adds a row of its entry's state and keeps a row
/// of every state that already had one.
proof fn lemma_gupsert_states(t0: Seq<SpecGEntry>, e: SpecGEntry)
    ensures
        forall|i0: int|
            0 <= i0 < t0.len() ==> exists|i: int|
                0 <= i < gupsert(t0, e).len() && (#[trigger] gupsert(t0, e)[i]).state == (
                #[trigger] t0[i0]).state,
        exists|i: int|
            0 <= i < gupsert(t0, e).len() && (#[trigger] gupsert(t0, e)[i]).state == e.state,
{
    let t1 = gupsert(t0, e);
    if has_gkey(t0, e.state, e.symbol) {
        let c = gkey_idx(t0, e.state, e.symbol);
        assert(0 <= c < t0.len() && t0[c].state == e.state && t0[c].symbol == e.symbol);
        assert(t1[c].state == e.state);
        assert forall|i0: int| 0 <= i0 < t0.len() implies exists|i: int|
            0 <= i < t1.len() && (#[trigger] t1[i]).state == (#[trigger] t0[i0]).state by {
            if i0 == c {
                assert(t1[c].state == t0[i0].state);
            } else {
                assert(t1[i0].state == t0[i0].state);
            }
        };
    } else {
        assert(t1[t0.len() as int].state == e.state);
        assert forall|i0: int| 0 <= i0 < t0.len() implies exists|i: int|
            0 <= i < t1.len() && (#[trigger] t1[i]).state == (#[trigger] t0[i0]).state by {
            assert(t1[i0].state == t0[i0].state);
        };
    }
}

impl LR1Parser {
    /// Derives the action and goto tables from the canonical collection:
    /// a shift or goto for every symbol after a dot, accept for the
    /// completed augmented start item under the end marker, and a reduce
    /// under the lookahead for every other completed item.  Conflicting
    /// writes at one key are resolved by the last write in construction
    /// order; the tables are a function of the grammar and the collection
    /// alone.
    pub fn construct_parsing_table_core(&mut self, grammar: &Grammar)
        requires
            first_computed(*grammar),
            sets_wf(*grammar, old(self).lr1_sets@),
            goto_closed(*grammar, old(self).lr1_sets@),
            old(self).action_table@.len() == 0,
            old(self).goto_table@.len() == 0,
        ensures
            final(self).tokens == old(self).tokens,
            final(self).error_list == old(self).error_list,
            final(self).status == old(self).status,
            final(self).part_table == old(self).part_table,
            final(self).pos == old(self).pos,
            final(self).reached_accept == old(self).reached_accept,
            final(self).lr1_sets == old(self).lr1_sets,
            akeys_unique(atab_of(final(self).action_table@)),
            gkeys_unique(gtab_of(final(self).goto_table@)),
            atab_of(final(self).action_table@) == tabs_of(*grammar, final(self).lr1_sets@).0,
            gtab_of(final(self).goto_table@) == tabs_of(*grammar, final(self).lr1_sets@).1,
            forall|s: int|
                0 <= s < final(self).lr1_sets@.len() ==> state_has_row(
                    atab_of(final(self).action_table@),
                    gtab_of(final(self).goto_table@),
                    s,
                ),
    {
        let ghost g = *grammar;
        let ghost sets = self.lr1_sets@;
        let end_tok = end_symbol();
        proof {
            assert(sym_of(end_tok) =~= end_sym());
            assert(tabs_fold(g, sets, 0, 0) == (atab_of(self.action_table@), gtab_of(
                self.goto_table@,
            ))) by {
                assert(atab_of(self.action_table@) =~= Seq::<SpecAEntry>::empty());
                assert(gtab_of(self.goto_table@) =~= Seq::<SpecGEntry>::empty());
            }
        }
        let mut s: usize = 0;
        while s < self.lr1_sets.len()
            invariant
                s <= sets.len(),
                g == *grammar,
                first_computed(g),
                self.lr1_sets@ == sets,
                sets_wf(g, sets),
                goto_closed(g, sets),
                sym_of(end_tok) == end_sym(),
                self.tokens == old(self).tokens,
                self.error_list == old(self).error_list,
                self.status == old(self).status,
                self.part_table == old(self).part_table,
                self.pos == old(self).pos,
                self.reached_accept == old(self).reached_accept,
                self.lr1_sets == old(self).lr1_sets,
                akeys_unique(atab_of(self.action_table@)),
                gkeys_unique(gtab_of(self.goto_table@)),
                (atab_of(self.action_table@), gtab_of(self.goto_table@)) == tabs_fold(
                    g,
                    sets,
                    s as int,
                    0,
                ),
                forall|s2: int|
                    0 <= s2 < s ==> state_has_row(
                        atab_of(self.action_table@),
                        gtab_of(self.goto_table@),
                        s2,
                    ),
            decreases sets.len() - s,
        {
            let item_count = self.lr1_sets[s].len();
            let mut k: usize = 0;
            while k < item_count
                invariant
                    s < sets.len(),
                    k <= item_count,
                    item_count == sets[s as int]@.len(),
                    g == *grammar,
                    first_computed(g),
                    self.lr1_sets@ == sets,
                    sets_wf(g, sets),
                    goto_closed(g, sets),
                    sym_of(end_tok) == end_sym(),
                    self.tokens == old(self).tokens,
                    self.error_list == old(self).error_list,
                    self.status == old(self).status,
                    self.part_table == old(self).part_table,
                    self.pos == old(self).pos,
                    self.reached_accept == old(self).reached_accept,
                    self.lr1_sets == old(self).lr1_sets,
                    akeys_unique(atab_of(self.action_table@)),
                    gkeys_unique(gtab_of(self.goto_table@)),
                    (atab_of(self.action_table@), gtab_of(self.goto_table@)) == tabs_fold(
                        g,
                        sets,
                        s as int,
                        k as int,
                    ),
                    forall|s2: int|
                        0 <= s2 < s ==> state_has_row(
                            atab_of(self.action_table@),
                            gtab_of(self.goto_table@),
                            s2,
                        ),
                    k > 0 ==> state_has_row(
                        atab_of(self.action_table@),
                        gtab_of(self.goto_table@),
                        s as int,
                    ),
                decreases item_count - k,
            {
                let ghost itv = item_of(sets[s as int]@[k as int]);
                let ghost prev_at = atab_of(self.action_table@);
                let ghost prev_gt = gtab_of(self.goto_table@);
                let it_dot = self.lr1_sets[s][k].dot;
                let it_blen = self.lr1_sets[s][k].body.len();
                proof {
                    assert(item_wf(g, itv)) by {
                        assert(item_of(sets[s as int]@[k as int]) == itv);
                    }
                    assert(itv.dot == it_dot as int);
                    assert(itv.body.len() == it_blen as int);
                }
                if it_dot < it_blen {
                    let symbol = self.lr1_sets[s][k].body[it_dot].duplicate();
                    proof {
                        assert(sym_of(symbol) == itv.body[itv.dot]);
                        assert(gsym_listed(g, sym_of(symbol)));
                    }
                    let next_set = self.goto(grammar, &self.lr1_sets[s], &symbol);
                    let ghost gres = goto_of(g, iset_of(sets[s as int]@), sym_of(symbol));
                    proof {
                        lemma_closure_base(g, advance_set(iset_of(sets[s as int]@), sym_of(symbol)));
                        assert(iset_of(sets[s as int]@).contains(itv)) by {
                            assert(items_of(sets[s as int]@)[k as int] == itv);
                        }
                        assert(advance_set(iset_of(sets[s as int]@), sym_of(symbol)).contains(
                            bump(itv),
                        ));
                        assert(gres.contains(bump(itv)));
                        assert(gres != Set::<SpecItem>::empty()) by {
                            assert(!Set::<SpecItem>::empty().contains(bump(itv)));
                        }
                    }
                    let found = find_equal_set(&self.lr1_sets, &next_set);
                    let tgt: usize = match found {
                        Some(j) => j,
                        None => {
                            proof {
                                assert(exists|j: int|
                                    0 <= j < sets.len() && iset_of((#[trigger] sets[j])@) == gres);
                                let j0 = choose|j: int|
                                    0 <= j < sets.len() && iset_of((#[trigger] sets[j])@) == gres;
                                assert(iset_of(self.lr1_sets@[j0]@) == iset_of(next_set@));
                                assert(false);
                            }
                            0
                        },
                    };
                    proof {
                        assert(iset_of(sets[tgt as int]@) == gres);
                        let c = state_idx(g, sets, gres);
                        assert(0 <= c < sets.len() && iset_of(sets[c]@) == gres) by {
                            assert(iset_of(sets[tgt as int]@) == gres);
                        }
                        if c != tgt {
                            assert(iset_of(sets[c]@) != iset_of(sets[tgt as int]@));
                            assert(false);
                        }
                    }
                    let symbol_is_term = symbol.is_terminal();
                    if symbol_is_term {
                        insert_action(&mut self.action_table, s, symbol, Action::Shift(tgt));
                        proof {
                            assert((atab_of(self.action_table@), gtab_of(self.goto_table@))
                                =~= tab_step(g, sets, s as int, itv, (prev_at, prev_gt)));
                            lemma_aupsert_states(
                                prev_at,
                                (SpecAEntry {
                                    state: s as int,
                                    symbol: itv.body[itv.dot],
                                    action: SpecAction::Shift(tgt as int),
                                }),
                            );
                        }
                    } else {
                        insert_goto(&mut self.goto_table, s, symbol, tgt);
                        proof {
                            assert((atab_of(self.action_table@), gtab_of(self.goto_table@))
                                =~= tab_step(g, sets, s as int, itv, (prev_at, prev_gt)));
                            lemma_gupsert_states(
                                prev_gt,
                                (SpecGEntry {
                                    state: s as int,
                                    symbol: itv.body[itv.dot],
                                    target: tgt as int,
                                }),
                            );
                        }
                    }
                } else {
                    let is_accept = sym_eq(&self.lr1_sets[s][k].head, &grammar.start_symbol)
                        && sym_eq(&self.lr1_sets[s][k].lookahead, &end_tok);
                    if is_accept {
                        insert_action(&mut self.action_table, s, end_symbol(), Action::Accept);
                        proof {
                            assert((atab_of(self.action_table@), gtab_of(self.goto_table@))
                                =~= tab_step(g, sets, s as int, itv, (prev_at, prev_gt)));
                            lemma_aupsert_states(
                                prev_at,
                                (SpecAEntry {
                                    state: s as int,
                                    symbol: end_sym(),
                                    action: SpecAction::Accept,
                                }),
                            );
                        }
                    } else {
                        let head = self.lr1_sets[s][k].head.duplicate();
                        let body = clone_toks(&self.lr1_sets[s][k].body);
                        let la = self.lr1_sets[s][k].lookahead.duplicate();
                        insert_action(&mut self.action_table, s, la, Action::Reduce(head, body));
                        proof {
                            assert((atab_of(self.action_table@), gtab_of(self.goto_table@))
                                =~= tab_step(g, sets, s as int, itv, (prev_at, prev_gt)));
                            lemma_aupsert_states(
                                prev_at,
                                (SpecAEntry {
                                    state: s as int,
                                    symbol: itv.lookahead,
                                    action: SpecAction::Reduce(itv.head, itv.body),
                                }),
                            );
                        }
                    }
                }
                proof {
                    assert((atab_of(self.action_table@), gtab_of(self.goto_table@)) == tabs_fold(
                        g,
                        sets,
                        s as int,
                        k as int + 1,
                    ));
                    // every branch wrote a row of state `s`, and an
                    // insert-or-replace keeps each existing row's state
                    assert forall|s2: int| 0 <= s2 <= s implies state_has_row(
                        atab_of(self.action_table@),
                        gtab_of(self.goto_table@),
                        s2,
                    ) by {
                        let at1 = atab_of(self.action_table@);
                        let gt1 = gtab_of(self.goto_table@);
                        if s2 < s || (s2 == s && k > 0) {
                            assert(state_has_row(prev_at, prev_gt, s2));
                            if exists|i0: int|
                                0 <= i0 < prev_at.len() && (#[trigger] prev_at[i0]).state == s2 {
                                let i0 = choose|i0: int|
                                    0 <= i0 < prev_at.len() && (#[trigger] prev_at[i0]).state
                                        == s2;
                                assert(prev_at[i0].state == s2);
                            } else {
                                let i0 = choose|i0: int|
                                    0 <= i0 < prev_gt.len() && (#[trigger] prev_gt[i0]).state
                                        == s2;
                                assert(prev_gt[i0].state == s2);
                            }
                        }
                    };
                }
                k += 1;
            }
            proof {
                assert(item_count > 0);
                assert((atab_of(self.action_table@), gtab_of(self.goto_table@)) == tabs_fold(
                    g,
                    sets,
                    s as int + 1,
                    0,
                ));
            }
            s += 1;
        }
        proof {
            assert((atab_of(self.action_table@), gtab_of(self.goto_table@)) == tabs_of(g, sets));
        }
    }
}

/// The symbols for which `state` has an action, the end marker excepted:
/// what the state would have accepted instead of an offending token.
#[verifier::rlimit(50)]
pub fn get_exception_symbols(action_table: &Vec<ActionEntry>, state: &usize) -> (r: Vec<Token>)
    ensures
        forall|i: int|
            0 <= i < r@.len() ==> has_akey(
                atab_of(action_table@),
                *state as int,
                sym_of(#[trigger] r@[i]),
            ),
        forall|i: int|
            0 <= i < r@.len() ==> sym_of(#[trigger] r@[i]) != (SpecSym {
                terminal: true,
                name: "#"@,
            }),
        forall|j: int|
            0 <= j < action_table@.len() && (#[trigger] action_table@[j]).state == *state && sym_of(
                action_table@[j].symbol,
            ) != (SpecSym { terminal: true, name: "#"@ }) ==> syms_of(r@).contains(
                sym_of(action_table@[j].symbol),
            ),
{
    let end_tok = end_symbol();
    proof {
        assert(sym_of(end_tok) =~= (SpecSym { terminal: true, name: "#"@ }));
    }
    let mut r: Vec<Token> = Vec::new();
    let mut k: usize = 0;
    while k < action_table.len()
        invariant
            k <= action_table@.len(),
            sym_of(end_tok) == (SpecSym { terminal: true, name: "#"@ }),
            forall|i: int|
                0 <= i < r@.len() ==> has_akey(
                    atab_of(action_table@),
                    *state as int,
                    sym_of(#[trigger] r@[i]),
                ),
            forall|i: int|
                0 <= i < r@.len() ==> sym_of(#[trigger] r@[i]) != (SpecSym {
                    terminal: true,
                    name: "#"@,
                }),
            forall|j: int|
                0 <= j < k && (#[trigger] action_table@[j]).state == *state && sym_of(
                    action_table@[j].symbol,
                ) != (SpecSym { terminal: true, name: "#"@ }) ==> syms_of(r@).contains(
                    sym_of(action_table@[j].symbol),
                ),
        decreases action_table@.len() - k,
    {
        let ghost r0 = r@;
        if action_table[k].state == *state && !sym_eq(&action_table[k].symbol, &end_tok) {
            r.push(action_table[k].symbol.duplicate());
            proof {
                assert(syms_of(r@) =~= syms_of(r0).push(sym_of(action_table@[k as int].symbol)));
                assert(syms_of(r@)[r0.len() as int] == sym_of(action_table@[k as int].symbol));
                assert(has_akey(
                    atab_of(action_table@),
                    *state as int,
                    sym_of(action_table@[k as int].symbol),
                )) by {
                    assert(atab_of(action_table@)[k as int].state == *state as int);
                    assert(atab_of(action_table@)[k as int].symbol == sym_of(
                        action_table@[k as int].symbol,
                    ));
                }
                assert forall|j: int|
                    0 <= j < k + 1 && (#[trigger] action_table@[j]).state == *state && sym_of(
                        action_table@[j].symbol,
                    ) != (SpecSym { terminal: true, name: "#"@ }) implies syms_of(r@).contains(
                    sym_of(action_table@[j].symbol),
                ) by {
                    if j < k {
                        assert(syms_of(r0).contains(sym_of(action_table@[j].symbol)));
                        let i0 = choose|i0: int|
                            0 <= i0 < syms_of(r0).len() && syms_of(r0)[i0] == sym_of(
                                action_table@[j].symbol,
                            );
                        assert(syms_of(r@)[i0] == sym_of(action_table@[j].symbol));
                    } else {
                        assert(syms_of(r@)[r0.len() as int] == sym_of(action_table@[j].symbol));
                    }
                };
                assert forall|i: int| 0 <= i < r@.len() implies has_akey(
                    atab_of(action_table@),
                    *state as int,
                    sym_of(#[trigger] r@[i]),
                ) && sym_of(r@[i]) != (SpecSym { terminal: true, name: "#"@ }) by {
                    if i < r0.len() {
                        assert(r@[i] == r0[i]);
                    } else {
                        assert(sym_of(r@[i]) == sym_of(action_table@[k as int].symbol));
                    }
                };
            }
        }
        k += 1;
    }
    r
}

/// State 0 always holds the augmented start item under the end marker;
/// and since the augmented start symbol occurs in no production body, no
/// other item of state 0 has it as head.
pub proof fn lemma_state0_exact(g: Grammar, sets: Seq<Vec<LR1Item>>, h: SpecSym)
    requires
        first_computed(g),
        has_head(g, h),
        sets.len() >= 1,
        iset_of(sets[0]@) == closure_of(g, set![init_item(g, h)]),
        forall|i: int, j: int, k: int|
            0 <= i < g.pro_list@.len() && 0 <= j < g.pro_list@[i].alternatives@.len() && 0 <= k
                < g.pro_list@[i].alternatives@[j]@.len() ==> sym_of(
                #[trigger] g.pro_list@[i].alternatives@[j]@[k],
            ) != h,
    ensures
        iset_of(sets[0]@).contains(init_item(g, h)),
        forall|it: SpecItem|
            #[trigger] iset_of(sets[0]@).contains(it) && it.head == h ==> it == init_item(g, h),
{
    let ps = g.pro_list@;
    let base = set![init_item(g, h)];
    lemma_closure_base(g, base);
    assert(base.contains(init_item(g, h)));
    // every closure item is the start item, or carries a grammar
    // alternative as its body under a head other than the start symbol
    let t = Set::new(
        |it: SpecItem|
            it == init_item(g, h) || ((exists|i: int, j: int|
                0 <= i < ps.len() && 0 <= j < ps[i].alternatives@.len() && syms_of(
                    (#[trigger] ps[i].alternatives@[j])@,
                ) == it.body) && it.head != h && 0 <= it.dot),
    );
    assert(base.subset_of(t));
    assert(closed_items(g, t)) by {
        assert forall|it: SpecItem, nit: SpecItem|
            #![trigger t.contains(it), generates(g, it, nit)]
            t.contains(it) && generates(g, it, nit) implies t.contains(nit) by {
            // in both cases `it`'s body is a grammar alternative
            let h0 = head_idx_in(ps, h);
            assert(0 <= h0 < ps.len() && sym_of(ps[h0].head) == h);
            assert(exists|bi: int, bj: int|
                0 <= bi < ps.len() && 0 <= bj < ps[bi].alternatives@.len() && syms_of(
                    (#[trigger] ps[bi].alternatives@[bj])@,
                ) == it.body) by {
                if it == init_item(g, h) {
                    assert(ps[h0].alternatives@.len() > 0);
                    assert(alts_of(g, h)[0] == syms_of((ps[h0].alternatives@[0])@));
                    assert(syms_of((ps[h0].alternatives@[0])@) == it.body);
                }
            }
            let (bi, bj) = choose|bi: int, bj: int|
                0 <= bi < ps.len() && 0 <= bj < ps[bi].alternatives@.len() && syms_of(
                    (#[trigger] ps[bi].alternatives@[bj])@,
                ) == it.body;
            assert(it.dot < it.body.len());
            assert(0 <= it.dot) by {
                if it == init_item(g, h) {
                    assert(it.dot == 0);
                }
            }
            assert(it.body.len() == ps[bi].alternatives@[bj]@.len());
            assert(syms_of(ps[bi].alternatives@[bj]@)[it.dot] == sym_of(
                ps[bi].alternatives@[bj]@[it.dot],
            ));
            assert(nit.head == sym_of(ps[bi].alternatives@[bj]@[it.dot]));
            assert(nit.head != h);
            assert(!nit.head.terminal);
            assert(has_head_in(ps, nit.head));
            // the generated body is itself a grammar alternative
            let hi = head_idx_in(ps, nit.head);
            assert(0 <= hi < ps.len() && sym_of(ps[hi].head) == nit.head);
            assert(alts_of(g, nit.head).contains(nit.body));
            let aj = choose|aj: int|
                0 <= aj < alts_of(g, nit.head).len() && alts_of(g, nit.head)[aj] == nit.body;
            assert(alts_of(g, nit.head)[aj] == syms_of((ps[hi].alternatives@[aj])@));
            assert(syms_of((ps[hi].alternatives@[aj])@) == nit.body);
            assert(t.contains(nit));
        };
    }
    lemma_closure_least(g, base, t);
    assert forall|it: SpecItem| #[trigger]
        iset_of(sets[0]@).contains(it) && it.head == h implies it == init_item(g, h) by {
        assert(t.contains(it));
    };
}

} // verus!
