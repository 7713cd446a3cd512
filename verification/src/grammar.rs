//! Grammar model: the production map and the FIRST sets.
//!
//! FIRST sets are computed by least-fixed-point iteration: every pass folds
//! each production alternative's contribution into its head's entry, and
//! the iteration stops when a whole pass adds nothing.  The contract pins
//! the result down as the least table closed under the FIRST equations.

use vstd::prelude::*;
use vstd::seq_lib::seq_to_set_is_finite;
use vstd::set_lib::lemma_len_subset;
use crate::types::{SpecSym, Token, push_to_set, start_symbol, empty_symbol, sym_eq, sym_of,
    syms_of};

verus! {

/// One production: a nonterminal head and its ordered, non-empty list of
/// body alternatives.
pub struct Production {
    pub head: Token,
    pub alternatives: Vec<Vec<Token>>,
}

/// The memoized FIRST set of one nonterminal.
#[verifier::ext_equal]
pub struct FirstEntry {
    pub symbol: Token,
    pub firsts: Vec<Token>,
}

/// A production as the external grammar loader delivers it: the head name
/// and each alternative as a list of element names.  Names listed in the
/// terminal vocabulary become terminals, all others nonterminal references.
pub struct RawProduction {
    pub head: String,
    pub alternatives: Vec<Vec<String>>,
}

/// The grammar: terminal vocabulary, production map, memoized FIRST table
/// and the augmented start symbol.
pub struct Grammar {
    pub token_list: Vec<String>,
    pub pro_list: Vec<Production>,
    pub first_sets: Vec<FirstEntry>,
    pub start_symbol: Token,
}

/// The designated empty-sequence marker.
pub open spec fn eps_sym() -> SpecSym {
    SpecSym { terminal: true, name: "\u{03b5}"@ }
}

/// Whether some production in `ps` has head `h`.
pub open spec fn has_head_in(ps: Seq<Production>, h: SpecSym) -> bool {
    exists|i: int| 0 <= i < ps.len() && sym_of(ps[i].head) == h
}

/// The index of the production with head `h`.
pub open spec fn head_idx_in(ps: Seq<Production>, h: SpecSym) -> int {
    choose|i: int| 0 <= i < ps.len() && sym_of(ps[i].head) == h
}

/// The symbol sequences of one production's body alternatives.
pub open spec fn alt_syms(p: Production) -> Seq<Seq<SpecSym>> {
    p.alternatives@.map_values(|a: Vec<Token>| syms_of(a@))
}

/// The body alternatives of the production with head `h`.
pub open spec fn alts_of_in(ps: Seq<Production>, h: SpecSym) -> Seq<Seq<SpecSym>> {
    alt_syms(ps[head_idx_in(ps, h)])
}

/// Whether the FIRST table `fs` has an entry for `h`.
pub open spec fn has_first_in(fs: Seq<FirstEntry>, h: SpecSym) -> bool {
    exists|i: int| 0 <= i < fs.len() && sym_of(fs[i].symbol) == h
}

/// The index of the FIRST entry for `h`.
pub open spec fn first_idx_in(fs: Seq<FirstEntry>, h: SpecSym) -> int {
    choose|i: int| 0 <= i < fs.len() && sym_of(fs[i].symbol) == h
}

/// The FIRST set recorded for `h`, as a set of symbols.
pub open spec fn first_of_in(fs: Seq<FirstEntry>, h: SpecSym) -> Set<SpecSym> {
    syms_of(fs[first_idx_in(fs, h)].firsts@).to_set()
}

/// The FIRST table as a map from nonterminal to set of symbols.
pub open spec fn ftab_of(fs: Seq<FirstEntry>) -> Map<SpecSym, Set<SpecSym>> {
    Map::new(|h: SpecSym| has_first_in(fs, h), |h: SpecSym| first_of_in(fs, h))
}

/// Whether some production of `g` has head `h`.
pub open spec fn has_head(g: Grammar, h: SpecSym) -> bool {
    has_head_in(g.pro_list@, h)
}

/// Whether the FIRST table of `g` has an entry for `h`.
pub open spec fn has_first(g: Grammar, h: SpecSym) -> bool {
    has_first_in(g.first_sets@, h)
}

/// The FIRST set `g` records for `h`.
pub open spec fn first_of(g: Grammar, h: SpecSym) -> Set<SpecSym> {
    first_of_in(g.first_sets@, h)
}

/// The body alternatives of `h`'s production in `g`.
pub open spec fn alts_of(g: Grammar, h: SpecSym) -> Seq<Seq<SpecSym>> {
    alts_of_in(g.pro_list@, h)
}

/// The contribution of a body alternative under a FIRST table `m`: the
/// leading terminal, or the leading nonterminal's entry, absorbing the next
/// symbol while the entry contains the empty marker; a fully nullable
/// alternative contributes the empty marker itself.
pub open spec fn alt_first(m: Map<SpecSym, Set<SpecSym>>, alt: Seq<SpecSym>) -> Set<SpecSym>
    decreases alt.len(),
{
    if alt.len() == 0 {
        set![eps_sym()]
    } else if alt[0].terminal {
        set![alt[0]]
    } else {
        let f = if m.dom().contains(alt[0]) {
            m[alt[0]]
        } else {
            Set::empty()
        };
        if f.contains(eps_sym()) {
            f.remove(eps_sym()).union(alt_first(m, alt.drop_first()))
        } else {
            f
        }
    }
}

/// A table is closed under the FIRST equations of `ps`: it has an entry
/// for every head, and every alternative's contribution lies inside its
/// head's entry.
pub open spec fn first_closed_in(ps: Seq<Production>, m: Map<SpecSym, Set<SpecSym>>) -> bool {
    forall|i: int, j: int|
        0 <= i < ps.len() && 0 <= j < ps[i].alternatives@.len() ==> m.dom().contains(
            sym_of(ps[i].head),
        ) && (#[trigger] alt_first(m, syms_of(ps[i].alternatives@[j]@))).subset_of(
            m[sym_of(ps[i].head)],
        )
}

/// The least FIRST set of `h`: what every closed table gives `h`.
pub open spec fn least_first_in(ps: Seq<Production>, h: SpecSym) -> Set<SpecSym> {
    Set::new(
        |a: SpecSym|
            forall|m: Map<SpecSym, Set<SpecSym>>| #[trigger]
                first_closed_in(ps, m) ==> m[h].contains(a),
    )
}

/// The least FIRST set `g`'s productions give `h`.
pub open spec fn least_first(g: Grammar, h: SpecSym) -> Set<SpecSym> {
    least_first_in(g.pro_list@, h)
}

/// Structural well-formedness of the production map: heads are nonterminal
/// and pairwise distinct, every alternative is non-empty, and every
/// nonterminal occurring in a body has productions of its own.
pub open spec fn wf_prods_in(ps: Seq<Production>) -> bool {
    &&& forall|i: int| 0 <= i < ps.len() ==> !(#[trigger] sym_of(ps[i].head)).terminal
    &&& forall|i: int| 0 <= i < ps.len() ==> (#[trigger] ps[i].alternatives@).len() > 0
    &&& forall|i: int, j: int|
        0 <= i < j < ps.len() ==> sym_of(ps[i].head) != sym_of(ps[j].head)
    &&& forall|i: int, j: int|
        0 <= i < ps.len() && 0 <= j < ps[i].alternatives@.len() ==> (
        #[trigger] ps[i].alternatives@[j]@).len() > 0
    &&& forall|i: int, j: int, k: int|
        0 <= i < ps.len() && 0 <= j < ps[i].alternatives@.len() && 0 <= k
            < ps[i].alternatives@[j]@.len() && !(#[trigger] sym_of(
            ps[i].alternatives@[j]@[k],
        )).terminal ==> has_head_in(ps, sym_of(ps[i].alternatives@[j]@[k]))
}

/// Structural well-formedness of `g`'s production map.
pub open spec fn wf_prods(g: Grammar) -> bool {
    wf_prods_in(g.pro_list@)
}

/// The FIRST table runs in step with the production list: entry `i` is the
/// entry of head `i`, every recorded symbol is a terminal, and no entry
/// repeats a symbol.
pub open spec fn wf_firsts_in(ps: Seq<Production>, fs: Seq<FirstEntry>) -> bool {
    &&& fs.len() == ps.len()
    &&& forall|i: int|
        0 <= i < fs.len() ==> sym_of(#[trigger] fs[i].symbol) == sym_of(ps[i].head)
    &&& forall|i: int|
        0 <= i < fs.len() ==> syms_of(#[trigger] fs[i].firsts@).no_duplicates()
    &&& forall|i: int, k: int|
        0 <= i < fs.len() && 0 <= k < fs[i].firsts@.len() ==> (#[trigger] sym_of(
            fs[i].firsts@[k],
        )).terminal
}

/// Every recorded FIRST symbol is justified: it belongs to the least
/// solution for its entry's nonterminal.
pub open spec fn firsts_justified(ps: Seq<Production>, fs: Seq<FirstEntry>) -> bool {
    forall|i: int, k: int|
        0 <= i < fs.len() && 0 <= k < fs[i].firsts@.len() ==> least_first_in(
            ps,
            sym_of(fs[i].symbol),
        ).contains(#[trigger] sym_of(fs[i].firsts@[k]))
}

/// Every terminal occurring in a production body is in the terminal
/// vocabulary.
pub open spec fn vocab_covers(g: Grammar) -> bool {
    forall|i: int, j: int, k: int|
        0 <= i < g.pro_list@.len() && 0 <= j < g.pro_list@[i].alternatives@.len() && 0 <= k
            < g.pro_list@[i].alternatives@[j]@.len() && (#[trigger] sym_of(
            g.pro_list@[i].alternatives@[j]@[k],
        )).terminal ==> name_listed(
            g.token_list@,
            sym_of(g.pro_list@[i].alternatives@[j]@[k]).name,
        )
}

/// The empty marker stands only as a whole alternative, never inside a
/// longer body: the well-formed way to write an empty production.
pub open spec fn eps_stands_alone(g: Grammar) -> bool {
    forall|i: int, j: int, k: int|
        0 <= i < g.pro_list@.len() && 0 <= j < g.pro_list@[i].alternatives@.len() && 0 <= k
            < g.pro_list@[i].alternatives@[j]@.len() && sym_of(
            #[trigger] g.pro_list@[i].alternatives@[j]@[k],
        ) == eps_sym() ==> g.pro_list@[i].alternatives@[j]@.len() == 1
}

/// The grammar is fully built: well-formed productions whose terminals the
/// vocabulary covers, and a FIRST table that is exactly the least solution
/// of the FIRST equations.
pub open spec fn first_computed(g: Grammar) -> bool {
    &&& wf_prods(g)
    &&& vocab_covers(g)
    &&& wf_firsts_in(g.pro_list@, g.first_sets@)
    &&& first_closed_in(g.pro_list@, ftab_of(g.first_sets@))
    &&& forall|h: SpecSym| has_head(g, h) ==> (#[trigger] first_of(g, h)) == least_first(g, h)
}

/// The effective lookahead set of a dotted body suffix with an inherited
/// fallback: the suffix's contribution where the empty marker stands for
/// "fully nullable", with the marker replaced by the fallback.
pub open spec fn first_syms(g: Grammar, rest: Seq<SpecSym>, fb: SpecSym) -> Set<SpecSym>
    decreases rest.len(),
{
    if rest.len() == 0 {
        set![fb]
    } else if rest[0].terminal {
        set![rest[0]]
    } else {
        if first_of(g, rest[0]).contains(eps_sym()) {
            first_of(g, rest[0]).remove(eps_sym()).union(first_syms(g, rest.drop_first(), fb))
        } else {
            first_of(g, rest[0])
        }
    }
}

/// A contribution only grows when the table grows.
proof fn lemma_alt_first_monotone(
    m1: Map<SpecSym, Set<SpecSym>>,
    m2: Map<SpecSym, Set<SpecSym>>,
    alt: Seq<SpecSym>,
)
    requires
        forall|h: SpecSym| #[trigger]
            m1.dom().contains(h) ==> m2.dom().contains(h) && m1[h].subset_of(m2[h]),
    ensures
        alt_first(m1, alt).subset_of(alt_first(m2, alt)),
    decreases alt.len(),
{
    if alt.len() == 0 {
    } else if alt[0].terminal {
    } else {
        lemma_alt_first_monotone(m1, m2, alt.drop_first());
        let f1 = if m1.dom().contains(alt[0]) {
            m1[alt[0]]
        } else {
            Set::<SpecSym>::empty()
        };
        let f2 = if m2.dom().contains(alt[0]) {
            m2[alt[0]]
        } else {
            Set::<SpecSym>::empty()
        };
        assert(f1.subset_of(f2));
        if f1.contains(eps_sym()) {
            assert(f2.contains(eps_sym()));
            assert forall|a: SpecSym| alt_first(m1, alt).contains(a) implies alt_first(
                m2,
                alt,
            ).contains(a) by {};
        } else {
            if f2.contains(eps_sym()) {
                assert forall|a: SpecSym| f1.contains(a) implies alt_first(m2, alt).contains(
                    a,
                ) by {
                    assert(f2.remove(eps_sym()).contains(a));
                };
            }
        }
    }
}

/// A justified table sits below every closed table, so its contributions
/// are themselves justified.
proof fn lemma_alt_first_justified(
    ps: Seq<Production>,
    fs: Seq<FirstEntry>,
    alt: Seq<SpecSym>,
    h: SpecSym,
)
    requires
        wf_prods_in(ps),
        wf_firsts_in(ps, fs),
        firsts_justified(ps, fs),
        forall|m: Map<SpecSym, Set<SpecSym>>| #[trigger]
            first_closed_in(ps, m) ==> alt_first(m, alt).subset_of(m[h]),
    ensures
        alt_first(ftab_of(fs), alt).subset_of(least_first_in(ps, h)),
{
    assert forall|a: SpecSym| alt_first(ftab_of(fs), alt).contains(a) implies least_first_in(
        ps,
        h,
    ).contains(a) by {
        assert forall|m: Map<SpecSym, Set<SpecSym>>| #[trigger]
            first_closed_in(ps, m) implies m[h].contains(a) by {
            assert forall|x: SpecSym| #[trigger]
                ftab_of(fs).dom().contains(x) implies m.dom().contains(x) && ftab_of(
                fs,
            )[x].subset_of(m[x]) by {
                let i = first_idx_in(fs, x);
                assert(0 <= i < fs.len() && sym_of(fs[i].symbol) == x);
                assert(sym_of(ps[i].head) == x);
                assert(ps[i].alternatives@.len() > 0);
                assert(alt_first(m, syms_of(ps[i].alternatives@[0]@)).subset_of(m[x]));
                assert(m.dom().contains(x));
                assert forall|b: SpecSym| ftab_of(fs)[x].contains(b) implies m[x].contains(b) by {
                    let fseq = syms_of(fs[i].firsts@);
                    assert(fseq.contains(b));
                    let k = choose|k: int| 0 <= k < fseq.len() && fseq[k] == b;
                    assert(sym_of(fs[i].firsts@[k]) == b);
                    assert(least_first_in(ps, x).contains(b));
                };
            };
            lemma_alt_first_monotone(ftab_of(fs), m, alt);
        };
    };
}

/// Once the table is closed and justified, each entry is exactly the least
/// solution.
proof fn lemma_least_from_closed(ps: Seq<Production>, fs: Seq<FirstEntry>)
    requires
        wf_prods_in(ps),
        wf_firsts_in(ps, fs),
        firsts_justified(ps, fs),
        first_closed_in(ps, ftab_of(fs)),
    ensures
        forall|h: SpecSym|
            has_head_in(ps, h) ==> (#[trigger] first_of_in(fs, h)) == least_first_in(ps, h),
{
    assert forall|h: SpecSym| has_head_in(ps, h) implies (#[trigger] first_of_in(fs, h))
        == least_first_in(ps, h) by {
        let i = head_idx_in(ps, h);
        assert(0 <= i < ps.len() && sym_of(ps[i].head) == h);
        assert(sym_of(fs[i].symbol) == h);
        assert(has_first_in(fs, h));
        let e = first_idx_in(fs, h);
        assert(0 <= e < fs.len() && sym_of(fs[e].symbol) == h);
        assert(e == i) by {
            if e != i {
                assert(sym_of(ps[e].head) == sym_of(ps[i].head));
            }
        }
        assert forall|a: SpecSym| first_of_in(fs, h).contains(a) implies least_first_in(
            ps,
            h,
        ).contains(a) by {
            let fseq = syms_of(fs[i].firsts@);
            assert(fseq.contains(a));
            let k = choose|k: int| 0 <= k < fseq.len() && fseq[k] == a;
            assert(sym_of(fs[i].firsts@[k]) == a);
        };
        assert forall|a: SpecSym| least_first_in(ps, h).contains(a) implies first_of_in(
            fs,
            h,
        ).contains(a) by {
            assert(first_closed_in(ps, ftab_of(fs)));
            assert(ftab_of(fs)[h].contains(a));
        };
        assert(first_of_in(fs, h) =~= least_first_in(ps, h));
    };
}

/// Token views commute with `push`.
proof fn lemma_syms_push(s: Seq<Token>, t: Token)
    ensures
        syms_of(s.push(t)) == syms_of(s).push(sym_of(t)),
{
    assert(syms_of(s.push(t)) =~= syms_of(s).push(sym_of(t)));
}

/// Taking one more element pushes it onto the taken prefix.
proof fn lemma_take_push(s: Seq<SpecSym>, q: int)
    requires
        0 <= q < s.len(),
    ensures
        s.take(q + 1) == s.take(q).push(s[q]),
{
    assert(s.take(q + 1) =~= s.take(q).push(s[q]));
}

/// Whether some token of `v` stands for the same symbol as `t`.
pub fn toks_contain(v: &Vec<Token>, t: &Token) -> (r: bool)
    ensures
        r == syms_of(v@).contains(sym_of(*t)),
{
    let mut k: usize = 0;
    while k < v.len()
        invariant
            k <= v@.len(),
            forall|x: int| 0 <= x < k ==> syms_of(v@)[x] != sym_of(*t),
        decreases v@.len() - k,
    {
        if sym_eq(&v[k], t) {
            assert(syms_of(v@)[k as int] == sym_of(*t));
            return true;
        }
        k += 1;
    }
    false
}

impl Grammar {
    /// The position of `t`'s production.
    pub fn find_head_idx(&self, t: &Token) -> (idx: usize)
        requires
            wf_prods_in(self.pro_list@),
            has_head_in(self.pro_list@, sym_of(*t)),
        ensures
            idx < self.pro_list@.len(),
            sym_of(self.pro_list@[idx as int].head) == sym_of(*t),
            idx == head_idx_in(self.pro_list@, sym_of(*t)),
    {
        let mut k: usize = 0;
        while k < self.pro_list.len()
            invariant
                k <= self.pro_list@.len(),
                wf_prods_in(self.pro_list@),
                has_head_in(self.pro_list@, sym_of(*t)),
                forall|x: int|
                    0 <= x < k ==> sym_of((#[trigger] self.pro_list@[x]).head) != sym_of(*t),
            decreases self.pro_list@.len() - k,
        {
            if sym_eq(&self.pro_list[k].head, t) {
                proof {
                    let c = head_idx_in(self.pro_list@, sym_of(*t));
                    assert(0 <= c < self.pro_list@.len() && sym_of(self.pro_list@[c].head)
                        == sym_of(*t));
                    if c != k {
                        assert(false);
                    }
                }
                return k;
            }
            k += 1;
        }
        proof {
            let c = head_idx_in(self.pro_list@, sym_of(*t));
            assert(0 <= c < self.pro_list@.len() && sym_of(self.pro_list@[c].head) == sym_of(*t));
            assert(false);
        }
        0
    }

    /// The position of `t`'s FIRST entry.
    fn find_first_idx(&self, t: &Token) -> (idx: usize)
        requires
            wf_prods_in(self.pro_list@),
            wf_firsts_in(self.pro_list@, self.first_sets@),
            has_first_in(self.first_sets@, sym_of(*t)),
        ensures
            idx < self.first_sets@.len(),
            sym_of(self.first_sets@[idx as int].symbol) == sym_of(*t),
            idx == first_idx_in(self.first_sets@, sym_of(*t)),
    {
        let mut k: usize = 0;
        while k < self.first_sets.len()
            invariant
                k <= self.first_sets@.len(),
                has_first_in(self.first_sets@, sym_of(*t)),
                wf_prods_in(self.pro_list@),
                wf_firsts_in(self.pro_list@, self.first_sets@),
                forall|x: int|
                    0 <= x < k ==> sym_of(#[trigger] self.first_sets@[x].symbol) != sym_of(*t),
            decreases self.first_sets@.len() - k,
        {
            if sym_eq(&self.first_sets[k].symbol, t) {
                proof {
                    let c = first_idx_in(self.first_sets@, sym_of(*t));
                    assert(0 <= c < self.first_sets@.len() && sym_of(self.first_sets@[c].symbol)
                        == sym_of(*t));
                    if c != k {
                        assert(sym_of(self.pro_list@[c].head) == sym_of(
                            self.pro_list@[k as int].head,
                        ));
                        assert(false);
                    }
                }
                return k;
            }
            k += 1;
        }
        proof {
            let c = first_idx_in(self.first_sets@, sym_of(*t));
            assert(0 <= c < self.first_sets@.len() && sym_of(self.first_sets@[c].symbol) == sym_of(
                *t,
            ));
            assert(false);
        }
        0
    }
}

impl Grammar {
    /// The effective lookahead-propagation set of a dotted body suffix plus
    /// an inherited fallback lookahead: a leading terminal contributes
    /// itself; a leading nonterminal contributes its FIRST set, continuing
    /// through nullable prefixes; a fully nullable suffix adds the
    /// fallback.
    pub fn first_symbols(&self, symbols: &[Token], fallback: &Token) -> (r: Vec<Token>)
        requires
            wf_prods_in(self.pro_list@),
            wf_firsts_in(self.pro_list@, self.first_sets@),
            forall|k: int|
                0 <= k < symbols@.len() && !(#[trigger] sym_of(symbols@[k])).terminal
                    ==> has_first_in(self.first_sets@, sym_of(symbols@[k])),
        ensures
            syms_of(r@).to_set() == first_syms(*self, syms_of(symbols@), sym_of(*fallback)),
    {
        let ghost target = first_syms(*self, syms_of(symbols@), sym_of(*fallback));
        let mut r: Vec<Token> = Vec::new();
        let mut w: usize = 0;
        proof {
            assert(syms_of(symbols@).skip(0) =~= syms_of(symbols@));
            assert(syms_of(r@) =~= Seq::<SpecSym>::empty());
            assert(syms_of(r@).to_set() =~= Set::<SpecSym>::empty());
            assert(target =~= syms_of(r@).to_set().union(
                first_syms(*self, syms_of(symbols@).skip(0), sym_of(*fallback)),
            ));
        }
        loop
            invariant
                w <= symbols@.len(),
                wf_prods_in(self.pro_list@),
                wf_firsts_in(self.pro_list@, self.first_sets@),
                forall|k: int|
                    0 <= k < symbols@.len() && !(#[trigger] sym_of(symbols@[k])).terminal
                        ==> has_first_in(self.first_sets@, sym_of(symbols@[k])),
                target == first_syms(*self, syms_of(symbols@), sym_of(*fallback)),
                target == syms_of(r@).to_set().union(
                    first_syms(*self, syms_of(symbols@).skip(w as int), sym_of(*fallback)),
                ),
            ensures
                syms_of(r@).to_set() == target,
            decreases symbols@.len() - w,
        {
            let ghost suffix = syms_of(symbols@).skip(w as int);
            if w >= symbols.len() {
                let ghost r0 = r@;
                r.push(fallback.duplicate());
                proof {
                    assert(suffix =~= Seq::<SpecSym>::empty());
                    assert(first_syms(*self, suffix, sym_of(*fallback)) == set![sym_of(*fallback)]);
                    lemma_syms_push(r0, *fallback);
                    push_to_set::<SpecSym>(syms_of(r0), sym_of(*fallback));
                    assert(syms_of(r@).to_set() =~= target);
                }
                break;
            }
            let sw_is_term = symbols[w].is_terminal();
            proof {
                assert(suffix.len() > 0);
                assert(suffix[0] == sym_of(symbols@[w as int]));
            }
            if sw_is_term {
                let ghost r0 = r@;
                r.push(symbols[w].duplicate());
                proof {
                    assert(first_syms(*self, suffix, sym_of(*fallback)) == set![suffix[0]]);
                    lemma_syms_push(r0, symbols@[w as int]);
                    push_to_set::<SpecSym>(syms_of(r0), suffix[0]);
                    assert(syms_of(r@).to_set() =~= target);
                }
                break;
            }
            let idx = self.find_first_idx(&symbols[w]);
            let eps_tok = empty_symbol();
            let has_eps = toks_contain(&self.first_sets[idx].firsts, &eps_tok);
            let ghost fseq = syms_of(self.first_sets@[idx as int].firsts@);
            let ghost fset = first_of_in(self.first_sets@, suffix[0]);
            proof {
                assert(fset == fseq.to_set());
                assert(has_eps == fset.contains(eps_sym()));
            }
            let flen = self.first_sets[idx].firsts.len();
            let ghost r1 = r@;
            if has_eps {
                let mut q: usize = 0;
                while q < flen
                    invariant
                        q <= flen,
                        idx < self.first_sets@.len(),
                        flen == self.first_sets@[idx as int].firsts@.len(),
                        fseq == syms_of(self.first_sets@[idx as int].firsts@),
                        sym_of(eps_tok) == eps_sym(),
                        syms_of(r@).to_set() == syms_of(r1).to_set().union(
                            fseq.take(q as int).to_set().remove(eps_sym()),
                        ),
                    decreases flen - q,
                {
                    let ghost r0 = r@;
                    let ghost taken = fseq.take(q as int).to_set();
                    if !sym_eq(&self.first_sets[idx].firsts[q], &eps_tok) {
                        r.push(self.first_sets[idx].firsts[q].duplicate());
                        proof {
                            lemma_take_push(fseq, q as int);
                            push_to_set::<SpecSym>(fseq.take(q as int), fseq[q as int]);
                            lemma_syms_push(r0, self.first_sets@[idx as int].firsts@[q as int]);
                            push_to_set::<SpecSym>(syms_of(r0), fseq[q as int]);
                            assert(taken.insert(fseq[q as int]).remove(eps_sym()) =~= taken.remove(
                                eps_sym(),
                            ).insert(fseq[q as int]));
                            assert(syms_of(r@).to_set() =~= syms_of(r1).to_set().union(
                                fseq.take(q as int + 1).to_set().remove(eps_sym()),
                            ));
                        }
                    } else {
                        proof {
                            lemma_take_push(fseq, q as int);
                            push_to_set::<SpecSym>(fseq.take(q as int), fseq[q as int]);
                            assert(taken.insert(eps_sym()).remove(eps_sym()) =~= taken.remove(
                                eps_sym(),
                            ));
                            assert(syms_of(r@).to_set() =~= syms_of(r1).to_set().union(
                                fseq.take(q as int + 1).to_set().remove(eps_sym()),
                            ));
                        }
                    }
                    q += 1;
                }
                proof {
                    assert(fseq.take(flen as int) =~= fseq);
                    assert(syms_of(r@).to_set() == syms_of(r1).to_set().union(
                        fset.remove(eps_sym()),
                    ));
                    assert(suffix.drop_first() =~= syms_of(symbols@).skip(w as int + 1));
                    assert(first_syms(*self, suffix, sym_of(*fallback)) == fset.remove(
                        eps_sym(),
                    ).union(first_syms(*self, suffix.drop_first(), sym_of(*fallback))));
                    assert(target =~= syms_of(r@).to_set().union(
                        first_syms(*self, syms_of(symbols@).skip(w as int + 1), sym_of(*fallback)),
                    ));
                }
                w += 1;
            } else {
                let mut q: usize = 0;
                while q < flen
                    invariant
                        q <= flen,
                        idx < self.first_sets@.len(),
                        flen == self.first_sets@[idx as int].firsts@.len(),
                        fseq == syms_of(self.first_sets@[idx as int].firsts@),
                        syms_of(r@).to_set() == syms_of(r1).to_set().union(
                            fseq.take(q as int).to_set(),
                        ),
                    decreases flen - q,
                {
                    let ghost r0 = r@;
                    r.push(self.first_sets[idx].firsts[q].duplicate());
                    proof {
                        lemma_take_push(fseq, q as int);
                        push_to_set::<SpecSym>(fseq.take(q as int), fseq[q as int]);
                        lemma_syms_push(r0, self.first_sets@[idx as int].firsts@[q as int]);
                        push_to_set::<SpecSym>(syms_of(r0), fseq[q as int]);
                        assert(syms_of(r@).to_set() =~= syms_of(r1).to_set().union(
                            fseq.take(q as int + 1).to_set(),
                        ));
                    }
                    q += 1;
                }
                proof {
                    assert(fseq.take(flen as int) =~= fseq);
                    assert(first_syms(*self, suffix, sym_of(*fallback)) == fset);
                    assert(syms_of(r@).to_set() =~= target);
                }
                break;
            }
        }
        r
    }
}

/// The contribution of an alternative under the grammar's own table is its
/// lookahead walk with the empty marker as fallback.
proof fn lemma_alt_first_is_first_syms(g: Grammar, alt: Seq<SpecSym>)
    requires
        forall|k: int|
            0 <= k < alt.len() && !(#[trigger] alt[k]).terminal ==> has_first_in(
                g.first_sets@,
                alt[k],
            ),
    ensures
        alt_first(ftab_of(g.first_sets@), alt) == first_syms(g, alt, eps_sym()),
    decreases alt.len(),
{
    if alt.len() == 0 {
    } else if alt[0].terminal {
    } else {
        assert(has_first_in(g.first_sets@, alt[0]));
        assert(ftab_of(g.first_sets@).dom().contains(alt[0]));
        assert(ftab_of(g.first_sets@)[alt[0]] == first_of(g, alt[0]));
        assert forall|k: int|
            0 <= k < alt.drop_first().len() && !(#[trigger] alt.drop_first()[k]).terminal
                implies has_first_in(g.first_sets@, alt.drop_first()[k]) by {
            assert(alt.drop_first()[k] == alt[k + 1]);
        };
        lemma_alt_first_is_first_syms(g, alt.drop_first());
    }
}

/// The total number of symbols recorded over all FIRST entries.
pub open spec fn entries_total(fs: Seq<FirstEntry>) -> int
    decreases fs.len(),
{
    if fs.len() <= 0 {
        0
    } else {
        fs[0].firsts@.len() + entries_total(fs.drop_first())
    }
}

/// The total is bounded by entries times a per-entry bound.
proof fn lemma_entries_total_le(fs: Seq<FirstEntry>, b: int)
    requires
        b >= 0,
        forall|i: int| 0 <= i < fs.len() ==> (#[trigger] fs[i].firsts@).len() <= b,
    ensures
        0 <= entries_total(fs) <= fs.len() * b,
    decreases fs.len(),
{
    if fs.len() == 0 {
    } else {
        let rest = fs.drop_first();
        assert forall|i: int| 0 <= i < rest.len() implies (#[trigger] rest[i].firsts@).len()
            <= b by {
            assert(rest[i] == fs[i + 1]);
        };
        lemma_entries_total_le(rest, b);
        assert(fs.len() * b == (fs.len() - 1) * b + b) by (nonlinear_arith);
    }
}

/// Changing one entry changes the total by that entry's growth.
proof fn lemma_entries_total_update(fs1: Seq<FirstEntry>, fs2: Seq<FirstEntry>, idx: int)
    requires
        fs1.len() == fs2.len(),
        0 <= idx < fs1.len(),
        forall|j: int| 0 <= j < fs1.len() && j != idx ==> fs2[j] == fs1[j],
    ensures
        entries_total(fs2) - entries_total(fs1) == fs2[idx].firsts@.len()
            - fs1[idx].firsts@.len(),
    decreases fs1.len(),
{
    if idx == 0 {
        assert(fs1.drop_first() =~= fs2.drop_first());
    } else {
        assert forall|j: int|
            0 <= j < fs1.drop_first().len() && j != idx - 1 implies fs2.drop_first()[j]
            == fs1.drop_first()[j] by {
            assert(fs1.drop_first()[j] == fs1[j + 1]);
            assert(fs2.drop_first()[j] == fs2[j + 1]);
        };
        lemma_entries_total_update(fs1.drop_first(), fs2.drop_first(), idx - 1);
        assert(fs1[0] == fs2[0]);
        assert(fs1.drop_first()[idx - 1] == fs1[idx]);
        assert(fs2.drop_first()[idx - 1] == fs2[idx]);
    }
}

/// All symbols of all body alternatives, flattened.
pub open spec fn flat_syms(xs: Seq<Seq<SpecSym>>) -> Seq<SpecSym>
    decreases xs.len(),
{
    if xs.len() <= 0 {
        Seq::empty()
    } else {
        xs[0] + flat_syms(xs.drop_first())
    }
}

/// All symbols occurring in any production body of `ps`.
pub open spec fn prods_syms(ps: Seq<Production>) -> Seq<SpecSym>
    decreases ps.len(),
{
    if ps.len() <= 0 {
        Seq::empty()
    } else {
        flat_syms(alt_syms(ps[0])) + prods_syms(ps.drop_first())
    }
}

/// Every symbol a FIRST entry can ever hold: the body symbols plus the
/// empty marker.
pub open spec fn sym_universe(ps: Seq<Production>) -> Seq<SpecSym> {
    prods_syms(ps).push(eps_sym())
}

/// Every recorded FIRST symbol lies in the symbol universe.
pub open spec fn firsts_bounded(ps: Seq<Production>, fs: Seq<FirstEntry>) -> bool {
    forall|i: int, k: int|
        0 <= i < fs.len() && 0 <= k < fs[i].firsts@.len() ==> sym_universe(ps).to_set().contains(
            #[trigger] sym_of(fs[i].firsts@[k]),
        )
}

proof fn lemma_concat_contains_left(a: Seq<SpecSym>, b: Seq<SpecSym>, x: SpecSym)
    requires
        a.contains(x),
    ensures
        (a + b).contains(x),
{
    let m = choose|m: int| 0 <= m < a.len() && a[m] == x;
    assert((a + b)[m] == x);
}

proof fn lemma_concat_contains_right(a: Seq<SpecSym>, b: Seq<SpecSym>, x: SpecSym)
    requires
        b.contains(x),
    ensures
        (a + b).contains(x),
{
    let m = choose|m: int| 0 <= m < b.len() && b[m] == x;
    assert((a + b)[a.len() + m] == x);
}

proof fn lemma_flat_syms_contains(xs: Seq<Seq<SpecSym>>, j: int, k: int)
    requires
        0 <= j < xs.len(),
        0 <= k < xs[j].len(),
    ensures
        flat_syms(xs).contains(xs[j][k]),
    decreases j,
{
    if j == 0 {
        assert(xs[0].contains(xs[0][k]));
        lemma_concat_contains_left(xs[0], flat_syms(xs.drop_first()), xs[0][k]);
    } else {
        assert(xs.drop_first()[j - 1] == xs[j]);
        lemma_flat_syms_contains(xs.drop_first(), j - 1, k);
        lemma_concat_contains_right(xs[0], flat_syms(xs.drop_first()), xs[j][k]);
    }
}

/// Every body symbol of `ps` occurs in `prods_syms(ps)`.
proof fn lemma_prods_syms_contains(ps: Seq<Production>, i: int, j: int, k: int)
    requires
        0 <= i < ps.len(),
        0 <= j < ps[i].alternatives@.len(),
        0 <= k < ps[i].alternatives@[j]@.len(),
    ensures
        prods_syms(ps).contains(sym_of(ps[i].alternatives@[j]@[k])),
    decreases i,
{
    if i == 0 {
        assert(alt_syms(ps[0])[j] == syms_of(ps[0].alternatives@[j]@));
        assert(alt_syms(ps[0])[j][k] == sym_of(ps[0].alternatives@[j]@[k]));
        lemma_flat_syms_contains(alt_syms(ps[0]), j, k);
        lemma_concat_contains_left(
            flat_syms(alt_syms(ps[0])),
            prods_syms(ps.drop_first()),
            sym_of(ps[0].alternatives@[j]@[k]),
        );
    } else {
        assert(ps.drop_first()[i - 1] == ps[i]);
        lemma_prods_syms_contains(ps.drop_first(), i - 1, j, k);
        lemma_concat_contains_right(
            flat_syms(alt_syms(ps[0])),
            prods_syms(ps.drop_first()),
            sym_of(ps[i].alternatives@[j]@[k]),
        );
    }
}

/// A duplicate-free entry over the universe cannot outgrow the universe.
proof fn lemma_entry_len_bound(ps: Seq<Production>, fs: Seq<FirstEntry>, i: int)
    requires
        0 <= i < fs.len(),
        syms_of(fs[i].firsts@).no_duplicates(),
        forall|k: int|
            0 <= k < fs[i].firsts@.len() ==> sym_universe(ps).to_set().contains(
                #[trigger] sym_of(fs[i].firsts@[k]),
            ),
    ensures
        fs[i].firsts@.len() <= sym_universe(ps).len(),
{
    let sq = syms_of(fs[i].firsts@);
    sq.unique_seq_to_set();
    assert forall|a: SpecSym| sq.to_set().contains(a) implies sym_universe(ps).to_set().contains(
        a,
    ) by {
        let k = choose|k: int| 0 <= k < sq.len() && sq[k] == a;
        assert(sym_of(fs[i].firsts@[k]) == a);
    };
    seq_to_set_is_finite::<SpecSym>(sym_universe(ps));
    lemma_len_subset(sq.to_set(), sym_universe(ps).to_set());
    sym_universe(ps).lemma_cardinality_of_set();
}

/// Every contribution symbol is a terminal.
proof fn lemma_alt_first_terminal(ps: Seq<Production>, fs: Seq<FirstEntry>, alt: Seq<SpecSym>)
    requires
        wf_firsts_in(ps, fs),
    ensures
        forall|a: SpecSym| #[trigger] alt_first(ftab_of(fs), alt).contains(a) ==> a.terminal,
    decreases alt.len(),
{
    if alt.len() == 0 {
    } else if alt[0].terminal {
    } else {
        lemma_alt_first_terminal(ps, fs, alt.drop_first());
        assert forall|a: SpecSym| #[trigger]
            alt_first(ftab_of(fs), alt).contains(a) implies a.terminal by {
            let f = if ftab_of(fs).dom().contains(alt[0]) {
                ftab_of(fs)[alt[0]]
            } else {
                Set::<SpecSym>::empty()
            };
            if f.contains(a) {
                let i = first_idx_in(fs, alt[0]);
                let sq = syms_of(fs[i].firsts@);
                assert(sq.contains(a));
                let k = choose|k: int| 0 <= k < sq.len() && sq[k] == a;
                assert(sym_of(fs[i].firsts@[k]) == a);
            } else {
                assert(alt_first(ftab_of(fs), alt.drop_first()).contains(a));
            }
        };
    }
}

/// Two FIRST tables that agree entry by entry.
pub open spec fn fs_same(fs1: Seq<FirstEntry>, fs2: Seq<FirstEntry>) -> bool {
    &&& fs1.len() == fs2.len()
    &&& forall|i: int| 0 <= i < fs1.len() ==> (#[trigger] fs2[i]).symbol == fs1[i].symbol
    &&& forall|i: int| 0 <= i < fs1.len() ==> (#[trigger] fs2[i]).firsts@ == fs1[i].firsts@
}

/// Entry-wise equal tables have the same total.
proof fn lemma_entries_total_same(fs1: Seq<FirstEntry>, fs2: Seq<FirstEntry>)
    requires
        fs_same(fs1, fs2),
    ensures
        entries_total(fs2) == entries_total(fs1),
    decreases fs1.len(),
{
    if fs1.len() == 0 {
    } else {
        assert forall|i: int| 0 <= i < fs1.drop_first().len() implies (#[trigger] fs2.drop_first()[i]).symbol
            == fs1.drop_first()[i].symbol && fs2.drop_first()[i].firsts@
            == fs1.drop_first()[i].firsts@ by {
            assert(fs1.drop_first()[i] == fs1[i + 1]);
            assert(fs2.drop_first()[i] == fs2[i + 1]);
        };
        lemma_entries_total_same(fs1.drop_first(), fs2.drop_first());
    }
}

/// Entry-wise equal tables denote the same FIRST map.
proof fn lemma_fs_same_ftab(ps: Seq<Production>, fs1: Seq<FirstEntry>, fs2: Seq<FirstEntry>)
    requires
        fs_same(fs1, fs2),
        wf_prods_in(ps),
        wf_firsts_in(ps, fs1),
    ensures
        wf_firsts_in(ps, fs2),
        ftab_of(fs2) == ftab_of(fs1),
{
    assert forall|h: SpecSym| true implies has_first_in(fs2, h) == has_first_in(fs1, h) by {
        if has_first_in(fs1, h) {
            let c = first_idx_in(fs1, h);
            assert(sym_of(fs2[c].symbol) == h);
        }
        if has_first_in(fs2, h) {
            let c = first_idx_in(fs2, h);
            assert(sym_of(fs1[c].symbol) == h);
        }
    };
    assert forall|h: SpecSym| has_first_in(fs1, h) implies first_of_in(fs2, h) == first_of_in(
        fs1,
        h,
    ) by {
        let c1 = first_idx_in(fs1, h);
        let c2 = first_idx_in(fs2, h);
        assert(0 <= c1 < fs1.len() && sym_of(fs1[c1].symbol) == h);
        assert(0 <= c2 < fs2.len() && sym_of(fs2[c2].symbol) == h);
        if c1 != c2 {
            assert(sym_of(fs1[c2].symbol) == h);
            assert(sym_of(ps[c1].head) == sym_of(ps[c2].head));
            assert(false);
        }
        assert(fs2[c2].firsts@ == fs1[c1].firsts@);
    };
    assert(ftab_of(fs2) =~= ftab_of(fs1));
}

/// Contribution symbols stay inside the symbol universe.
proof fn lemma_alt_first_bounded(ps: Seq<Production>, fs: Seq<FirstEntry>, alt: Seq<SpecSym>)
    requires
        firsts_bounded(ps, fs),
        forall|k: int|
            0 <= k < alt.len() && (#[trigger] alt[k]).terminal ==> sym_universe(
                ps,
            ).to_set().contains(alt[k]),
    ensures
        alt_first(ftab_of(fs), alt).subset_of(sym_universe(ps).to_set()),
    decreases alt.len(),
{
    assert(sym_universe(ps)[prods_syms(ps).len() as int] == eps_sym());
    assert(sym_universe(ps).contains(eps_sym()));
    if alt.len() == 0 {
    } else if alt[0].terminal {
    } else {
        assert forall|k: int|
            0 <= k < alt.drop_first().len() && (#[trigger] alt.drop_first()[k]).terminal
                implies sym_universe(ps).to_set().contains(alt.drop_first()[k]) by {
            assert(alt.drop_first()[k] == alt[k + 1]);
        };
        lemma_alt_first_bounded(ps, fs, alt.drop_first());
        assert forall|a: SpecSym| alt_first(ftab_of(fs), alt).contains(a) implies sym_universe(
            ps,
        ).to_set().contains(a) by {
            let f = if ftab_of(fs).dom().contains(alt[0]) {
                ftab_of(fs)[alt[0]]
            } else {
                Set::<SpecSym>::empty()
            };
            if f.contains(a) {
                let i = first_idx_in(fs, alt[0]);
                let sq = syms_of(fs[i].firsts@);
                assert(sq.contains(a));
                let k = choose|k: int| 0 <= k < sq.len() && sq[k] == a;
                assert(sym_of(fs[i].firsts@[k]) == a);
            }
        };
    }
}

/// Entry `i` of an aligned FIRST table is the entry of head `i`.
proof fn lemma_aligned_first_idx(ps: Seq<Production>, fs: Seq<FirstEntry>, i: int)
    requires
        wf_prods_in(ps),
        wf_firsts_in(ps, fs),
        0 <= i < ps.len(),
    ensures
        has_first_in(fs, sym_of(ps[i].head)),
        first_idx_in(fs, sym_of(ps[i].head)) == i,
        first_of_in(fs, sym_of(ps[i].head)) == syms_of(fs[i].firsts@).to_set(),
{
    let h = sym_of(ps[i].head);
    assert(sym_of(fs[i].symbol) == h);
    assert(has_first_in(fs, h));
    let c = first_idx_in(fs, h);
    assert(0 <= c < fs.len() && sym_of(fs[c].symbol) == h);
    if c != i {
        assert(sym_of(ps[c].head) == sym_of(ps[i].head));
        assert(false);
    }
}

impl Grammar {
    /// Folds `items` into FIRST entry `i`, keeping the entry free of
    /// duplicates; reports whether anything was new.
    fn merge_entry(&mut self, i: usize, items: &Vec<Token>) -> (grew: bool)
        requires
            i < old(self).first_sets@.len(),
            wf_prods_in(old(self).pro_list@),
            wf_firsts_in(old(self).pro_list@, old(self).first_sets@),
            firsts_bounded(old(self).pro_list@, old(self).first_sets@),
            firsts_justified(old(self).pro_list@, old(self).first_sets@),
            forall|k: int| 0 <= k < items@.len() ==> (#[trigger] sym_of(items@[k])).terminal,
            forall|k: int|
                0 <= k < items@.len() ==> sym_universe(old(self).pro_list@).to_set().contains(
                    #[trigger] sym_of(items@[k]),
                ),
            forall|k: int|
                0 <= k < items@.len() ==> least_first_in(
                    old(self).pro_list@,
                    sym_of(old(self).first_sets@[i as int].symbol),
                ).contains(#[trigger] sym_of(items@[k])),
        ensures
            final(self).pro_list == old(self).pro_list,
            final(self).token_list == old(self).token_list,
            final(self).start_symbol == old(self).start_symbol,
            final(self).first_sets@.len() == old(self).first_sets@.len(),
            forall|j: int|
                0 <= j < final(self).first_sets@.len() && j != i ==> final(self).first_sets@[j]
                    == old(self).first_sets@[j],
            final(self).first_sets@[i as int].symbol == old(self).first_sets@[i as int].symbol,
            wf_firsts_in(final(self).pro_list@, final(self).first_sets@),
            firsts_bounded(final(self).pro_list@, final(self).first_sets@),
            firsts_justified(final(self).pro_list@, final(self).first_sets@),
            syms_of(final(self).first_sets@[i as int].firsts@).to_set() == syms_of(
                old(self).first_sets@[i as int].firsts@,
            ).to_set().union(syms_of(items@).to_set()),
            !grew ==> fs_same(old(self).first_sets@, final(self).first_sets@),
            grew ==> entries_total(final(self).first_sets@) > entries_total(
                old(self).first_sets@,
            ),
    {
        let ghost fs0 = self.first_sets@;
        let ghost ps = self.pro_list@;
        let mut entry = self.first_sets.remove(i);
        let ghost e0 = entry;
        let mut grew = false;
        let mut k: usize = 0;
        proof {
            assert(items@.take(0) =~= Seq::<Token>::empty());
            assert(syms_of(items@.take(0)) =~= Seq::<SpecSym>::empty());
            assert(syms_of(entry.firsts@).to_set() =~= syms_of(e0.firsts@).to_set().union(
                syms_of(items@.take(0)).to_set(),
            ));
            assert forall|x: int| 0 <= x < entry.firsts@.len() implies syms_of(
                e0.firsts@,
            ).to_set().contains(#[trigger] sym_of(entry.firsts@[x])) by {
                assert(syms_of(e0.firsts@)[x] == sym_of(e0.firsts@[x]));
            };
        }
        while k < items.len()
            invariant
                k <= items@.len(),
                entry.symbol == e0.symbol,
                syms_of(entry.firsts@).to_set() == syms_of(e0.firsts@).to_set().union(
                    syms_of(items@.take(k as int)).to_set(),
                ),
                syms_of(e0.firsts@).no_duplicates() ==> syms_of(entry.firsts@).no_duplicates(),
                entry.firsts@.len() >= e0.firsts@.len(),
                !grew ==> entry.firsts@ == e0.firsts@,
                grew ==> entry.firsts@.len() > e0.firsts@.len(),
                forall|x: int|
                    0 <= x < entry.firsts@.len() ==> syms_of(e0.firsts@).to_set().contains(
                        #[trigger] sym_of(entry.firsts@[x]),
                    ) || syms_of(items@).to_set().contains(sym_of(entry.firsts@[x])),
            decreases items@.len() - k,
        {
            let ghost ent0 = entry.firsts@;
            if !toks_contain(&entry.firsts, &items[k]) {
                entry.firsts.push(items[k].duplicate());
                grew = true;
                proof {
                    lemma_syms_push(ent0, items@[k as int]);
                    push_to_set::<SpecSym>(syms_of(ent0), sym_of(items@[k as int]));
                    assert(syms_of(items@).to_set().contains(sym_of(items@[k as int]))) by {
                        assert(syms_of(items@)[k as int] == sym_of(items@[k as int]));
                    }
                    assert(syms_of(e0.firsts@).no_duplicates() ==> syms_of(
                        entry.firsts@,
                    ).no_duplicates()) by {
                        if syms_of(ent0).no_duplicates() {
                            let sq = syms_of(entry.firsts@);
                            assert forall|a: int, b: int| 0 <= a < b < sq.len() implies sq[a]
                                != sq[b] by {
                                if b == sq.len() - 1 {
                                    assert(sq[a] == syms_of(ent0)[a]);
                                    assert(syms_of(ent0).contains(syms_of(ent0)[a]));
                                    assert(sq[b] == sym_of(items@[k as int]));
                                    assert(!syms_of(ent0).contains(sym_of(items@[k as int])));
                                } else {
                                    assert(sq[a] == syms_of(ent0)[a]);
                                    assert(sq[b] == syms_of(ent0)[b]);
                                }
                            };
                        }
                    }
                    assert(items@.take(k + 1) =~= items@.take(k as int).push(items@[k as int]));
                    assert(syms_of(items@.take(k + 1)) =~= syms_of(items@.take(k as int)).push(
                        sym_of(items@[k as int]),
                    ));
                    push_to_set::<SpecSym>(syms_of(items@.take(k as int)), sym_of(items@[k as int]));
                    assert(syms_of(entry.firsts@).to_set() =~= syms_of(e0.firsts@).to_set().union(
                        syms_of(items@.take(k + 1)).to_set(),
                    ));
                }
            } else {
                proof {
                    assert(items@.take(k + 1) =~= items@.take(k as int).push(items@[k as int]));
                    assert(syms_of(items@.take(k + 1)) =~= syms_of(items@.take(k as int)).push(
                        sym_of(items@[k as int]),
                    ));
                    push_to_set::<SpecSym>(syms_of(items@.take(k as int)), sym_of(items@[k as int]));
                    assert(syms_of(entry.firsts@).to_set() =~= syms_of(e0.firsts@).to_set().union(
                        syms_of(items@.take(k + 1)).to_set(),
                    ));
                }
            }
            k += 1;
        }
        proof {
            assert(items@.take(items@.len() as int) =~= items@);
        }
        self.first_sets.insert(i, entry);
        let ghost fs1 = self.first_sets@;
        proof {
            assert(fs1 =~= fs0.update(i as int, entry));
            assert forall|j: int| 0 <= j < fs1.len() && j != i implies fs1[j] == fs0[j] by {};
            if grew {
                lemma_entries_total_update(fs0, fs1, i as int);
            } else {
                assert(fs_same(fs0, fs1));
            }
            assert forall|a: int, b: int| 0 <= a < fs1.len() && 0 <= b
                < fs1[a].firsts@.len() implies (#[trigger] sym_of(fs1[a].firsts@[b])).terminal
                && sym_universe(ps).to_set().contains(sym_of(fs1[a].firsts@[b]))
                && least_first_in(ps, sym_of(fs1[a].symbol)).contains(
                sym_of(fs1[a].firsts@[b]),
            ) by {
                if a == i {
                    let s = sym_of(fs1[a].firsts@[b]);
                    assert(syms_of(e0.firsts@).to_set().contains(s) || syms_of(
                        items@,
                    ).to_set().contains(s));
                    if syms_of(e0.firsts@).to_set().contains(s) {
                        let w = choose|w: int|
                            0 <= w < syms_of(e0.firsts@).len() && syms_of(e0.firsts@)[w] == s;
                        assert(sym_of(fs0[i as int].firsts@[w]) == s);
                    } else {
                        let w = choose|w: int|
                            0 <= w < syms_of(items@).len() && syms_of(items@)[w] == s;
                        assert(sym_of(items@[w]) == s);
                    }
                }
            };
        }
        grew
    }
}

impl Grammar {
    /// One folding pass over every production alternative; reports whether
    /// any FIRST entry grew.
    fn first_pass(&mut self) -> (changed: bool)
        requires
            wf_prods_in(old(self).pro_list@),
            wf_firsts_in(old(self).pro_list@, old(self).first_sets@),
            firsts_bounded(old(self).pro_list@, old(self).first_sets@),
            firsts_justified(old(self).pro_list@, old(self).first_sets@),
        ensures
            final(self).pro_list == old(self).pro_list,
            final(self).token_list == old(self).token_list,
            final(self).start_symbol == old(self).start_symbol,
            wf_firsts_in(final(self).pro_list@, final(self).first_sets@),
            firsts_bounded(final(self).pro_list@, final(self).first_sets@),
            firsts_justified(final(self).pro_list@, final(self).first_sets@),
            entries_total(final(self).first_sets@) >= entries_total(old(self).first_sets@),
            !changed ==> fs_same(old(self).first_sets@, final(self).first_sets@)
                && first_closed_in(old(self).pro_list@, ftab_of(final(self).first_sets@)),
            changed ==> entries_total(final(self).first_sets@) > entries_total(
                old(self).first_sets@,
            ),
    {
        let ghost ps = self.pro_list@;
        let ghost fs_old = self.first_sets@;
        let ghost pl0 = self.pro_list;
        let ghost tl0 = self.token_list;
        let ghost st0 = self.start_symbol;
        let mut changed = false;
        let eps_tok = empty_symbol();
        let mut i: usize = 0;
        while i < self.pro_list.len()
            invariant
                i <= ps.len(),
                self.pro_list == pl0,
                self.token_list == tl0,
                self.start_symbol == st0,
                ps == pl0@,
                sym_of(eps_tok) == eps_sym(),
                wf_prods_in(ps),
                wf_firsts_in(ps, self.first_sets@),
                firsts_bounded(ps, self.first_sets@),
                firsts_justified(ps, self.first_sets@),
                entries_total(self.first_sets@) >= entries_total(fs_old),
                changed ==> entries_total(self.first_sets@) > entries_total(fs_old),
                !changed ==> fs_same(fs_old, self.first_sets@),
                !changed ==> forall|a: int, b: int|
                    0 <= a < i && 0 <= b < ps[a].alternatives@.len() ==> (#[trigger] alt_first(
                        ftab_of(self.first_sets@),
                        syms_of(ps[a].alternatives@[b]@),
                    )).subset_of(ftab_of(self.first_sets@)[sym_of(ps[a].head)]),
            decreases ps.len() - i,
        {
            let alt_count = self.pro_list[i].alternatives.len();
            let mut j: usize = 0;
            while j < alt_count
                invariant
                    i < ps.len(),
                    j <= alt_count,
                    alt_count == ps[i as int].alternatives@.len(),
                    self.pro_list == pl0,
                    self.token_list == tl0,
                    self.start_symbol == st0,
                    ps == pl0@,
                    sym_of(eps_tok) == eps_sym(),
                    wf_prods_in(ps),
                    wf_firsts_in(ps, self.first_sets@),
                    firsts_bounded(ps, self.first_sets@),
                    firsts_justified(ps, self.first_sets@),
                    entries_total(self.first_sets@) >= entries_total(fs_old),
                    changed ==> entries_total(self.first_sets@) > entries_total(fs_old),
                    !changed ==> fs_same(fs_old, self.first_sets@),
                    !changed ==> forall|a: int, b: int|
                        0 <= a < i && 0 <= b < ps[a].alternatives@.len() ==> (#[trigger] alt_first(
                            ftab_of(self.first_sets@),
                            syms_of(ps[a].alternatives@[b]@),
                        )).subset_of(ftab_of(self.first_sets@)[sym_of(ps[a].head)]),
                    !changed ==> forall|b: int|
                        0 <= b < j ==> (#[trigger] alt_first(
                            ftab_of(self.first_sets@),
                            syms_of(ps[i as int].alternatives@[b]@),
                        )).subset_of(ftab_of(self.first_sets@)[sym_of(ps[i as int].head)]),
                decreases alt_count - j,
            {
                let ghost altv = syms_of(ps[i as int].alternatives@[j as int]@);
                proof {
                    assert forall|k: int|
                        0 <= k < ps[i as int].alternatives@[j as int]@.len() && !(#[trigger] sym_of(
                            ps[i as int].alternatives@[j as int]@[k],
                        )).terminal implies has_first_in(
                        self.first_sets@,
                        sym_of(ps[i as int].alternatives@[j as int]@[k]),
                    ) by {
                        let s = sym_of(ps[i as int].alternatives@[j as int]@[k]);
                        assert(has_head_in(ps, s));
                        let hi = head_idx_in(ps, s);
                        assert(sym_of(self.first_sets@[hi].symbol) == s);
                    };
                    assert forall|k: int|
                        0 <= k < altv.len() && !(#[trigger] altv[k]).terminal implies has_first_in(
                        self.first_sets@,
                        altv[k],
                    ) by {
                        assert(altv[k] == sym_of(ps[i as int].alternatives@[j as int]@[k]));
                    };
                }
                let items = self.first_symbols(
                    self.pro_list[i].alternatives[j].as_slice(),
                    &eps_tok,
                );
                let ghost fs_pre = self.first_sets@;
                let ghost h = sym_of(ps[i as int].head);
                proof {
                    lemma_alt_first_is_first_syms(*self, altv);
                    assert(syms_of(items@).to_set() == alt_first(ftab_of(fs_pre), altv));
                    lemma_alt_first_terminal(ps, fs_pre, altv);
                    assert forall|k: int|
                        0 <= k < altv.len() && (#[trigger] altv[k]).terminal implies sym_universe(
                        ps,
                    ).to_set().contains(altv[k]) by {
                        lemma_prods_syms_contains(ps, i as int, j as int, k);
                        let m = choose|m: int|
                            0 <= m < prods_syms(ps).len() && prods_syms(ps)[m] == altv[k];
                        assert(sym_universe(ps)[m] == altv[k]);
                    };
                    lemma_alt_first_bounded(ps, fs_pre, altv);
                    assert forall|m: Map<SpecSym, Set<SpecSym>>| #[trigger]
                        first_closed_in(ps, m) implies alt_first(m, altv).subset_of(m[h]) by {};
                    lemma_alt_first_justified(ps, fs_pre, altv, h);
                    lemma_aligned_first_idx(ps, fs_pre, i as int);
                    assert forall|k: int| 0 <= k < items@.len() implies (#[trigger] sym_of(
                        items@[k],
                    )).terminal && sym_universe(ps).to_set().contains(sym_of(items@[k]))
                        && least_first_in(ps, sym_of(fs_pre[i as int].symbol)).contains(
                        sym_of(items@[k]),
                    ) by {
                        assert(syms_of(items@)[k] == sym_of(items@[k]));
                        assert(syms_of(items@).to_set().contains(sym_of(items@[k])));
                        assert(alt_first(ftab_of(fs_pre), altv).contains(sym_of(items@[k])));
                    };
                }
                let grew = self.merge_entry(i, &items);
                proof {
                    if !grew {
                        lemma_fs_same_ftab(ps, fs_pre, self.first_sets@);
                        lemma_entries_total_same(fs_pre, self.first_sets@);
                        if !changed {
                            assert(fs_same(fs_old, self.first_sets@));
                            lemma_aligned_first_idx(ps, self.first_sets@, i as int);
                            assert(alt_first(ftab_of(self.first_sets@), altv).subset_of(
                                ftab_of(self.first_sets@)[h],
                            )) by {
                                assert(syms_of(self.first_sets@[i as int].firsts@).to_set()
                                    == syms_of(fs_pre[i as int].firsts@).to_set().union(
                                    syms_of(items@).to_set(),
                                ));
                                assert(syms_of(items@).to_set().subset_of(
                                    syms_of(fs_pre[i as int].firsts@).to_set(),
                                ));
                                assert(ftab_of(self.first_sets@)[h] == syms_of(
                                    self.first_sets@[i as int].firsts@,
                                ).to_set());
                            }
                        }
                    }
                }
                if grew {
                    changed = true;
                }
                j += 1;
            }
            i += 1;
        }
        proof {
            if !changed {
                assert(first_closed_in(ps, ftab_of(self.first_sets@))) by {
                    assert forall|a: int| 0 <= a < ps.len() implies #[trigger] ftab_of(
                        self.first_sets@,
                    ).dom().contains(sym_of(ps[a].head)) by {
                        lemma_aligned_first_idx(ps, self.first_sets@, a);
                    };
                    assert forall|a: int, b: int|
                        0 <= a < ps.len() && 0 <= b
                            < ps[a].alternatives@.len() implies ftab_of(
                        self.first_sets@,
                    ).dom().contains(sym_of(ps[a].head)) && (#[trigger] alt_first(
                        ftab_of(self.first_sets@),
                        syms_of(ps[a].alternatives@[b]@),
                    )).subset_of(ftab_of(self.first_sets@)[sym_of(ps[a].head)]) by {
                        lemma_aligned_first_idx(ps, self.first_sets@, a);
                        assert(alt_first(
                            ftab_of(self.first_sets@),
                            syms_of(ps[a].alternatives@[b]@),
                        ).subset_of(ftab_of(self.first_sets@)[sym_of(ps[a].head)]));
                    };
                };
            }
        }
        changed
    }

    /// Computes the FIRST sets of every nonterminal by least-fixed-point
    /// iteration over the FIRST equations.
    pub fn calculate_first_sets(&mut self)
        requires
            wf_prods(*old(self)),
            vocab_covers(*old(self)),
            old(self).first_sets@.len() == 0,
        ensures
            final(self).pro_list == old(self).pro_list,
            final(self).token_list == old(self).token_list,
            final(self).start_symbol == old(self).start_symbol,
            first_computed(*final(self)),
    {
        let ghost ps = self.pro_list@;
        let ghost pl0 = self.pro_list;
        let ghost tl0 = self.token_list;
        let ghost st0 = self.start_symbol;
        let mut i: usize = 0;
        while i < self.pro_list.len()
            invariant
                i <= ps.len(),
                self.pro_list == pl0,
                self.token_list == tl0,
                self.start_symbol == st0,
                ps == pl0@,
                self.first_sets@.len() == i,
                forall|x: int|
                    0 <= x < i ==> (#[trigger] self.first_sets@[x]).symbol == ps[x].head,
                forall|x: int| 0 <= x < i ==> (#[trigger] self.first_sets@[x]).firsts@.len() == 0,
            decreases ps.len() - i,
        {
            let h = self.pro_list[i].head.duplicate();
            self.first_sets.push(FirstEntry { symbol: h, firsts: Vec::new() });
            i += 1;
        }
        proof {
            assert forall|x: int| 0 <= x < self.first_sets@.len() implies syms_of(
                #[trigger] self.first_sets@[x].firsts@,
            ).no_duplicates() by {
                assert(syms_of(self.first_sets@[x].firsts@) =~= Seq::<SpecSym>::empty());
            };
            assert(wf_firsts_in(ps, self.first_sets@));
        }
        loop
            invariant
                self.pro_list == pl0,
                self.token_list == tl0,
                self.start_symbol == st0,
                ps == pl0@,
                wf_prods_in(ps),
                wf_firsts_in(ps, self.first_sets@),
                firsts_bounded(ps, self.first_sets@),
                firsts_justified(ps, self.first_sets@),
            ensures
                self.pro_list == pl0,
                self.token_list == tl0,
                self.start_symbol == st0,
                wf_firsts_in(ps, self.first_sets@),
                firsts_bounded(ps, self.first_sets@),
                firsts_justified(ps, self.first_sets@),
                first_closed_in(ps, ftab_of(self.first_sets@)),
            decreases ps.len() * (sym_universe(ps).len() + 1) - entries_total(self.first_sets@),
        {
            proof {
                assert forall|x: int| 0 <= x < self.first_sets@.len() implies (
                #[trigger] self.first_sets@[x].firsts@).len() <= sym_universe(ps).len() by {
                    lemma_entry_len_bound(ps, self.first_sets@, x);
                };
                lemma_entries_total_le(self.first_sets@, sym_universe(ps).len() as int);
                assert(ps.len() * (sym_universe(ps).len() + 1) == ps.len() * sym_universe(
                    ps,
                ).len() + ps.len()) by (nonlinear_arith);
            }
            let changed = self.first_pass();
            proof {
                assert forall|x: int| 0 <= x < self.first_sets@.len() implies (
                #[trigger] self.first_sets@[x].firsts@).len() <= sym_universe(ps).len() by {
                    lemma_entry_len_bound(ps, self.first_sets@, x);
                };
                lemma_entries_total_le(self.first_sets@, sym_universe(ps).len() as int);
            }
            if !changed {
                break;
            }
        }
        proof {
            lemma_least_from_closed(ps, self.first_sets@);
        }
    }
}

/// The FIRST set of a single symbol: a terminal is its own FIRST set, a
/// nonterminal has its table entry.
pub open spec fn spec_first(g: Grammar, s: SpecSym) -> Set<SpecSym> {
    if s.terminal {
        set![s]
    } else {
        first_of(g, s)
    }
}

/// Whether `n` is one of the names in `tl`.
pub open spec fn name_listed(tl: Seq<String>, n: Seq<char>) -> bool {
    exists|i: int| 0 <= i < tl.len() && tl[i]@ == n
}

/// The symbol a body element name stands for: a terminal when the name is
/// in the terminal vocabulary, a nonterminal reference otherwise.
pub open spec fn classify(tl: Seq<String>, n: Seq<char>) -> SpecSym {
    SpecSym { terminal: name_listed(tl, n), name: n }
}

/// Whether `name` occurs in the vocabulary list.
fn name_in_list(list: &Vec<String>, name: &String) -> (r: bool)
    ensures
        r == name_listed(list@, name@),
{
    let mut k: usize = 0;
    while k < list.len()
        invariant
            k <= list@.len(),
            forall|x: int| 0 <= x < k ==> (#[trigger] list@[x])@ != name@,
        decreases list@.len() - k,
    {
        if list[k] == *name {
            return true;
        }
        k += 1;
    }
    false
}

impl Grammar {
    /// An empty grammar around the augmented start symbol.
    pub fn new() -> (g: Self)
        ensures
            g.token_list@.len() == 0,
            g.pro_list@.len() == 0,
            g.first_sets@.len() == 0,
            sym_of(g.start_symbol) == (SpecSym { terminal: false, name: "CompUnit'"@ }),
    {
        Self {
            token_list: Vec::<String>::new(),
            pro_list: Vec::<Production>::new(),
            first_sets: Vec::<FirstEntry>::new(),
            start_symbol: start_symbol(),
        }
    }

    /// The FIRST set of one symbol, read from the computed table.
    pub fn first(&self, symbol: &Token) -> (r: Vec<Token>)
        requires
            wf_prods_in(self.pro_list@),
            wf_firsts_in(self.pro_list@, self.first_sets@),
            !sym_of(*symbol).terminal ==> has_first_in(self.first_sets@, sym_of(*symbol)),
        ensures
            syms_of(r@).to_set() == spec_first(*self, sym_of(*symbol)),
    {
        let mut r: Vec<Token> = Vec::new();
        if symbol.is_terminal() {
            let ghost r0 = r@;
            r.push(symbol.duplicate());
            proof {
                lemma_syms_push(r0, *symbol);
                push_to_set::<SpecSym>(syms_of(r0), sym_of(*symbol));
                assert(syms_of(r0) =~= Seq::<SpecSym>::empty());
                assert(syms_of(r0).to_set() =~= Set::<SpecSym>::empty());
                assert(syms_of(r@).to_set() =~= set![sym_of(*symbol)]);
            }
            return r;
        }
        let idx = self.find_first_idx(symbol);
        let ghost fseq = syms_of(self.first_sets@[idx as int].firsts@);
        let flen = self.first_sets[idx].firsts.len();
        let mut q: usize = 0;
        proof {
            assert(fseq.take(0) =~= Seq::<SpecSym>::empty());
            assert(syms_of(r@) =~= Seq::<SpecSym>::empty());
            assert(syms_of(r@).to_set() =~= fseq.take(0).to_set());
        }
        while q < flen
            invariant
                q <= flen,
                idx < self.first_sets@.len(),
                flen == self.first_sets@[idx as int].firsts@.len(),
                fseq == syms_of(self.first_sets@[idx as int].firsts@),
                syms_of(r@).to_set() == fseq.take(q as int).to_set(),
            decreases flen - q,
        {
            let ghost r0 = r@;
            r.push(self.first_sets[idx].firsts[q].duplicate());
            proof {
                lemma_take_push(fseq, q as int);
                push_to_set::<SpecSym>(fseq.take(q as int), fseq[q as int]);
                lemma_syms_push(r0, self.first_sets@[idx as int].firsts@[q as int]);
                push_to_set::<SpecSym>(syms_of(r0), fseq[q as int]);
                assert(syms_of(r@).to_set() =~= fseq.take(q as int + 1).to_set());
            }
            q += 1;
        }
        proof {
            assert(fseq.take(flen as int) =~= fseq);
        }
        r
    }

    /// Installs the vocabulary and the production map that the external
    /// grammar-file loader delivers, classifying every body element name
    /// against the vocabulary, and computes the FIRST sets.
    pub fn grammar_load(&mut self, terminals: Vec<String>, rules: Vec<RawProduction>)
        requires
            old(self).token_list@.len() == 0,
            old(self).pro_list@.len() == 0,
            old(self).first_sets@.len() == 0,
            forall|a: int, b: int|
                0 <= a < b < rules@.len() ==> (#[trigger] rules@[a]).head@ != (
                #[trigger] rules@[b]).head@,
            forall|a: int| 0 <= a < rules@.len() ==> (#[trigger] rules@[a].alternatives@).len() > 0,
            forall|a: int, b: int|
                0 <= a < rules@.len() && 0 <= b < rules@[a].alternatives@.len() ==> (
                #[trigger] rules@[a].alternatives@[b]@).len() > 0,
            forall|a: int, b: int, c: int|
                0 <= a < rules@.len() && 0 <= b < rules@[a].alternatives@.len() && 0 <= c
                    < rules@[a].alternatives@[b]@.len() && !name_listed(
                    terminals@,
                    (#[trigger] rules@[a].alternatives@[b]@[c])@,
                ) ==> exists|d: int|
                    0 <= d < rules@.len() && rules@[d].head@ == rules@[a].alternatives@[b]@[c]@,
            forall|a: int, b: int, c: int|
                0 <= a < rules@.len() && 0 <= b < rules@[a].alternatives@.len() && 0 <= c
                    < rules@[a].alternatives@[b]@.len() && (
                #[trigger] rules@[a].alternatives@[b]@[c])@ == "\u{03b5}"@
                    ==> rules@[a].alternatives@[b]@.len() == 1,
        ensures
            final(self).token_list == terminals,
            final(self).start_symbol == old(self).start_symbol,
            final(self).pro_list@.len() == rules@.len(),
            forall|i: int|
                0 <= i < rules@.len() ==> sym_of((#[trigger] final(self).pro_list@[i]).head) == (
                SpecSym { terminal: false, name: rules@[i].head@ }),
            forall|i: int|
                0 <= i < rules@.len() ==> (#[trigger] final(self).pro_list@[i]).alternatives@.len()
                    == rules@[i].alternatives@.len(),
            forall|i: int, j: int|
                0 <= i < rules@.len() && 0 <= j < rules@[i].alternatives@.len() ==> (
                #[trigger] final(self).pro_list@[i].alternatives@[j]@).len()
                    == rules@[i].alternatives@[j]@.len(),
            forall|i: int, j: int, k: int|
                0 <= i < rules@.len() && 0 <= j < rules@[i].alternatives@.len() && 0 <= k
                    < rules@[i].alternatives@[j]@.len() ==> sym_of(
                    #[trigger] final(self).pro_list@[i].alternatives@[j]@[k],
                ) == classify(terminals@, rules@[i].alternatives@[j]@[k]@),
            first_computed(*final(self)),
            eps_stands_alone(*final(self)),
    {
        self.token_list = terminals;
        let mut i: usize = 0;
        while i < rules.len()
            invariant
                i <= rules@.len(),
                self.token_list == terminals,
                self.first_sets@.len() == 0,
                self.start_symbol == old(self).start_symbol,
                self.pro_list@.len() == i,
                forall|x: int|
                    0 <= x < i ==> sym_of((#[trigger] self.pro_list@[x]).head) == (SpecSym {
                        terminal: false,
                        name: rules@[x].head@,
                    }),
                forall|x: int|
                    0 <= x < i ==> (#[trigger] self.pro_list@[x]).alternatives@.len()
                        == rules@[x].alternatives@.len(),
                forall|x: int, y: int|
                    0 <= x < i && 0 <= y < rules@[x].alternatives@.len() ==> (
                    #[trigger] self.pro_list@[x].alternatives@[y]@).len()
                        == rules@[x].alternatives@[y]@.len(),
                forall|x: int, y: int, z: int|
                    0 <= x < i && 0 <= y < rules@[x].alternatives@.len() && 0 <= z
                        < rules@[x].alternatives@[y]@.len() ==> sym_of(
                        #[trigger] self.pro_list@[x].alternatives@[y]@[z],
                    ) == classify(terminals@, rules@[x].alternatives@[y]@[z]@),
            decreases rules@.len() - i,
        {
            let alt_count = rules[i].alternatives.len();
            let mut alts: Vec<Vec<Token>> = Vec::new();
            let mut j: usize = 0;
            while j < alt_count
                invariant
                    j <= alt_count,
                    i < rules@.len(),
                    alt_count == rules@[i as int].alternatives@.len(),
                    self.token_list == terminals,
                    alts@.len() == j,
                    forall|y: int|
                        0 <= y < j ==> (#[trigger] alts@[y])@.len()
                            == rules@[i as int].alternatives@[y]@.len(),
                    forall|y: int, z: int|
                        0 <= y < j && 0 <= z < rules@[i as int].alternatives@[y]@.len()
                            ==> sym_of(#[trigger] alts@[y]@[z]) == classify(
                            terminals@,
                            rules@[i as int].alternatives@[y]@[z]@,
                        ),
                decreases alt_count - j,
            {
                let elem_count = rules[i].alternatives[j].len();
                let mut alt: Vec<Token> = Vec::new();
                let mut k: usize = 0;
                while k < elem_count
                    invariant
                        k <= elem_count,
                        i < rules@.len(),
                        j < rules@[i as int].alternatives@.len(),
                        elem_count == rules@[i as int].alternatives@[j as int]@.len(),
                        self.token_list == terminals,
                        alt@.len() == k,
                        forall|z: int|
                            0 <= z < k ==> sym_of(#[trigger] alt@[z]) == classify(
                                terminals@,
                                rules@[i as int].alternatives@[j as int]@[z]@,
                            ),
                    decreases elem_count - k,
                {
                    let name = rules[i].alternatives[j][k].clone();
                    let t = if name_in_list(&self.token_list, &name) {
                        Token::new_terminal(name, None)
                    } else {
                        Token::new_not_terminal(name, None)
                    };
                    alt.push(t);
                    k += 1;
                }
                alts.push(alt);
                j += 1;
            }
            let head = Token::new_not_terminal(rules[i].head.clone(), None);
            self.pro_list.push(Production { head, alternatives: alts });
            i += 1;
        }
        proof {
            let ps = self.pro_list@;
            assert forall|x: int, y: int| 0 <= x < y < ps.len() implies sym_of(ps[x].head)
                != sym_of(ps[y].head) by {
                assert(rules@[x].head@ != rules@[y].head@);
            };
            assert forall|x: int, y: int, z: int|
                0 <= x < ps.len() && 0 <= y < ps[x].alternatives@.len() && 0 <= z
                    < ps[x].alternatives@[y]@.len() && !(#[trigger] sym_of(
                    ps[x].alternatives@[y]@[z],
                )).terminal implies has_head_in(ps, sym_of(ps[x].alternatives@[y]@[z])) by {
                let n = rules@[x].alternatives@[y]@[z]@;
                assert(sym_of(ps[x].alternatives@[y]@[z]) == classify(terminals@, n));
                assert(!name_listed(terminals@, n));
                let d = choose|d: int| 0 <= d < rules@.len() && (#[trigger] rules@[d]).head@ == n;
                assert(sym_of(ps[d].head) == (SpecSym { terminal: false, name: n }));
            };
            assert(wf_prods_in(ps));
        }
        self.calculate_first_sets();
        proof {
            assert forall|i: int, j: int, k: int|
                0 <= i < self.pro_list@.len() && 0 <= j < self.pro_list@[i].alternatives@.len()
                    && 0 <= k < self.pro_list@[i].alternatives@[j]@.len() && sym_of(
                    #[trigger] self.pro_list@[i].alternatives@[j]@[k],
                ) == eps_sym() implies self.pro_list@[i].alternatives@[j]@.len() == 1 by {
                assert(sym_of(self.pro_list@[i].alternatives@[j]@[k]) == classify(
                    terminals@,
                    rules@[i].alternatives@[j]@[k]@,
                ));
                assert(rules@[i].alternatives@[j]@[k]@ == "\u{03b5}"@);
            };
        }
    }
}

/// The FIRST equations hold of the computed table: every alternative's
/// contribution lies inside its head's FIRST set.
pub proof fn lemma_first_equations_hold(g: Grammar, i: int, j: int)
    requires
        first_computed(g),
        0 <= i < g.pro_list@.len(),
        0 <= j < g.pro_list@[i].alternatives@.len(),
    ensures
        has_first(g, sym_of(g.pro_list@[i].head)),
        alt_first(ftab_of(g.first_sets@), syms_of(g.pro_list@[i].alternatives@[j]@)).subset_of(
            first_of(g, sym_of(g.pro_list@[i].head)),
        ),
{
    let h = sym_of(g.pro_list@[i].head);
    lemma_aligned_first_idx(g.pro_list@, g.first_sets@, i);
    assert(alt_first(
        ftab_of(g.first_sets@),
        syms_of(g.pro_list@[i].alternatives@[j]@),
    ).subset_of(ftab_of(g.first_sets@)[h]));
    assert(ftab_of(g.first_sets@)[h] == first_of(g, h));
}

/// One-step FIRST soundness: an alternative that starts with a terminal
/// (the empty marker included) puts that terminal into its head's FIRST
/// set.  In particular, a directly nullable alternative records the empty
/// marker, signalling nullability.
pub proof fn lemma_first_sound_leading_terminal(g: Grammar, i: int, j: int)
    requires
        first_computed(g),
        0 <= i < g.pro_list@.len(),
        0 <= j < g.pro_list@[i].alternatives@.len(),
        sym_of(g.pro_list@[i].alternatives@[j]@[0]).terminal,
    ensures
        first_of(g, sym_of(g.pro_list@[i].head)).contains(
            sym_of(g.pro_list@[i].alternatives@[j]@[0]),
        ),
{
    lemma_first_equations_hold(g, i, j);
    let alt = syms_of(g.pro_list@[i].alternatives@[j]@);
    assert(alt.len() > 0);
    assert(alt[0] == sym_of(g.pro_list@[i].alternatives@[j]@[0]));
    assert(alt_first(ftab_of(g.first_sets@), alt) == set![alt[0]]);
    assert(alt_first(ftab_of(g.first_sets@), alt).contains(alt[0]));
}

/// Minimality of the computed FIRST sets: they claim nothing beyond what
/// every table closed under the FIRST equations must contain.
pub proof fn lemma_first_minimal(
    g: Grammar,
    m: Map<SpecSym, Set<SpecSym>>,
    h: SpecSym,
    a: SpecSym,
)
    requires
        first_computed(g),
        has_head(g, h),
        first_closed_in(g.pro_list@, m),
        first_of(g, h).contains(a),
    ensures
        m[h].contains(a),
{
    assert(first_of(g, h) == least_first(g, h));
    assert(least_first_in(g.pro_list@, h).contains(a));
}

} // verus!
