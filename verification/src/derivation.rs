//! FIRST-set soundness and completeness over grammar derivations.
//!
//! A sentential form derives another by replacing one nonterminal with one
//! of its body alternatives.  Two laws are proved here.  Soundness: the
//! leading symbol of any terminal string derivable from a nonterminal —
//! the empty markers that substitution leaves behind skipped — lies in
//! that nonterminal's computed FIRST set, and a fully blank derivative
//! puts the empty marker itself there.  Completeness: every member of a
//! computed FIRST set is realized by some derivation; in particular the
//! empty marker in a FIRST set means the nonterminal is nullable.

use vstd::prelude::*;
use crate::grammar::{alt_first, alts_of, eps_sym, eps_stands_alone, first_closed_in,
    first_computed, first_of, ftab_of, has_head, head_idx_in, Grammar};
use crate::types::{SpecSym, sym_of, syms_of};

verus! {

/// One derivation step: some nonterminal of `a` is replaced by one of its
/// body alternatives.
pub open spec fn derive_step(g: Grammar, a: Seq<SpecSym>, b: Seq<SpecSym>) -> bool {
    exists|k: int, alt: Seq<SpecSym>|
        0 <= k < a.len() && !a[k].terminal && has_head(g, a[k]) && alts_of(g, a[k]).contains(alt)
            && b == #[trigger] a.take(k).add(alt).add(a.skip(k + 1))
}

/// Derivation in at most `fuel` steps.
pub open spec fn derives_n(g: Grammar, a: Seq<SpecSym>, b: Seq<SpecSym>, fuel: nat) -> bool
    decreases fuel,
{
    a == b || (fuel > 0 && exists|mid: Seq<SpecSym>| #[trigger]
        derive_step(g, a, mid) && derives_n(g, mid, b, (fuel - 1) as nat))
}

/// A string of terminals only.
pub open spec fn all_terminal(w: Seq<SpecSym>) -> bool {
    forall|k: int| 0 <= k < w.len() ==> (#[trigger] w[k]).terminal
}

/// The leading symbol of a sentential form, the empty markers skipped; a
/// fully blank form leads with the empty marker itself.
pub open spec fn lead_sym(w: Seq<SpecSym>) -> SpecSym
    decreases w.len(),
{
    if w.len() == 0 {
        eps_sym()
    } else if w[0] == eps_sym() {
        lead_sym(w.drop_first())
    } else {
        w[0]
    }
}

/// The FIRST evaluation of a sentential form: a body contribution walk
/// that also skips the literal empty markers substitution introduces.
pub open spec fn sent_first(m: Map<SpecSym, Set<SpecSym>>, a: Seq<SpecSym>) -> Set<SpecSym>
    decreases a.len(),
{
    if a.len() == 0 {
        set![eps_sym()]
    } else if a[0] == eps_sym() {
        sent_first(m, a.drop_first())
    } else if a[0].terminal {
        set![a[0]]
    } else {
        let f = if m.dom().contains(a[0]) {
            m[a[0]]
        } else {
            Set::empty()
        };
        if f.contains(eps_sym()) {
            f.remove(eps_sym()).union(sent_first(m, a.drop_first()))
        } else {
            f
        }
    }
}

/// How two evaluations combine over concatenation.
pub open spec fn sent_chain(x: Set<SpecSym>, y: Set<SpecSym>) -> Set<SpecSym> {
    if x.contains(eps_sym()) {
        x.remove(eps_sym()).union(y)
    } else {
        x
    }
}

/// Evaluation distributes over concatenation through the chain operator.
proof fn lemma_sent_concat(m: Map<SpecSym, Set<SpecSym>>, x: Seq<SpecSym>, y: Seq<SpecSym>)
    ensures
        sent_first(m, x + y) == sent_chain(sent_first(m, x), sent_first(m, y)),
    decreases x.len(),
{
    if x.len() == 0 {
        assert(x + y =~= y);
        assert(sent_chain(sent_first(m, x), sent_first(m, y)) =~= sent_first(m, y));
    } else {
        assert((x + y).len() > 0);
        assert((x + y)[0] == x[0]);
        assert((x + y).drop_first() =~= x.drop_first() + y);
        lemma_sent_concat(m, x.drop_first(), y);
        if x[0] == eps_sym() {
        } else if x[0].terminal {
            assert(!sent_first(m, x).contains(eps_sym()));
        } else {
            let f = if m.dom().contains(x[0]) {
                m[x[0]]
            } else {
                Set::<SpecSym>::empty()
            };
            if f.contains(eps_sym()) {
                let sx = sent_first(m, x.drop_first());
                let sy = sent_first(m, y);
                if sx.contains(eps_sym()) {
                    assert(sent_first(m, x).contains(eps_sym()));
                    assert(f.remove(eps_sym()).union(sent_chain(sx, sy)) =~= (f.remove(
                        eps_sym(),
                    ).union(sx)).remove(eps_sym()).union(sy));
                } else {
                    assert(!sent_first(m, x).contains(eps_sym()));
                    assert(f.remove(eps_sym()).union(sent_chain(sx, sy)) =~= f.remove(
                        eps_sym(),
                    ).union(sx));
                }
            } else {
                assert(!f.contains(eps_sym()));
                assert(sent_chain(sent_first(m, x), sent_first(m, y)) =~= f);
            }
        }
    }
}

/// A terminal string evaluates to its leading symbol alone.
proof fn lemma_sent_terminal(m: Map<SpecSym, Set<SpecSym>>, w: Seq<SpecSym>)
    requires
        all_terminal(w),
    ensures
        sent_first(m, w) == set![lead_sym(w)],
    decreases w.len(),
{
    if w.len() == 0 {
    } else if w[0] == eps_sym() {
        assert(all_terminal(w.drop_first())) by {
            assert(forall|k: int|
                0 <= k < w.drop_first().len() ==> (#[trigger] w.drop_first()[k]) == w[k + 1]);
        }
        lemma_sent_terminal(m, w.drop_first());
    } else {
        assert(w[0].terminal);
    }
}

/// On a body whose markers stand alone, the sentential evaluation agrees
/// with the body-contribution walk.
proof fn lemma_sent_eq_alt_first(m: Map<SpecSym, Set<SpecSym>>, alt: Seq<SpecSym>)
    requires
        forall|k: int| 0 <= k < alt.len() && (#[trigger] alt[k]) == eps_sym() ==> alt.len() == 1,
    ensures
        sent_first(m, alt) == alt_first(m, alt),
    decreases alt.len(),
{
    if alt.len() == 0 {
    } else if alt[0] == eps_sym() {
        assert(alt.len() == 1);
        assert(alt.drop_first() =~= Seq::<SpecSym>::empty());
        assert(sent_first(m, alt.drop_first()) == set![eps_sym()]);
        assert(sent_first(m, alt) == set![eps_sym()]);
        assert(alt_first(m, alt) == set![alt[0]]);
        assert(set![alt[0]] =~= set![eps_sym()]);
    } else if alt[0].terminal {
    } else {
        assert(forall|k: int|
            0 <= k < alt.drop_first().len() && (#[trigger] alt.drop_first()[k]) == eps_sym()
                ==> alt.drop_first()[k] == alt[k + 1] && alt.len() == 1);
        lemma_sent_eq_alt_first(m, alt.drop_first());
    }
}

/// The chain operator is monotone in both parts.
proof fn lemma_sent_chain_monotone(
    x1: Set<SpecSym>,
    x2: Set<SpecSym>,
    y1: Set<SpecSym>,
    y2: Set<SpecSym>,
)
    requires
        x1.subset_of(x2),
        y1.subset_of(y2),
    ensures
        sent_chain(x1, y1).subset_of(sent_chain(x2, y2)),
{
    assert forall|s: SpecSym| sent_chain(x1, y1).contains(s) implies sent_chain(x2, y2).contains(
        s,
    ) by {
        if x1.contains(eps_sym()) {
            assert(x2.contains(eps_sym()));
        } else {
            if x2.contains(eps_sym()) {
                if x1.contains(s) {
                    assert(s != eps_sym());
                    assert(x2.remove(eps_sym()).contains(s));
                }
            }
        }
    };
}

/// A nonterminal alone evaluates to exactly its table entry.
proof fn lemma_sent_single(m: Map<SpecSym, Set<SpecSym>>, n: SpecSym)
    requires
        !n.terminal,
        m.dom().contains(n),
    ensures
        sent_first(m, seq![n]) == m[n],
{
    assert(seq![n].len() == 1);
    assert(seq![n][0] == n);
    assert(n != eps_sym());
    assert(seq![n].drop_first() =~= Seq::<SpecSym>::empty());
    assert(sent_first(m, seq![n].drop_first()) == set![eps_sym()]);
    if m[n].contains(eps_sym()) {
        assert(sent_first(m, seq![n]) == m[n].remove(eps_sym()).union(set![eps_sym()]));
        assert(m[n].remove(eps_sym()).union(set![eps_sym()]) =~= m[n]);
    } else {
        assert(sent_first(m, seq![n]) == m[n]);
    }
}

/// One derivation step never grows the evaluation: substituting an
/// alternative for a nonterminal stays inside the closed FIRST table.
proof fn lemma_sent_step(g: Grammar, m: Map<SpecSym, Set<SpecSym>>, a: Seq<SpecSym>, b: Seq<
    SpecSym,
>)
    requires
        first_closed_in(g.pro_list@, m),
        eps_stands_alone(g),
        derive_step(g, a, b),
    ensures
        sent_first(m, b).subset_of(sent_first(m, a)),
{
    let ps = g.pro_list@;
    let (k, alt) = choose|k: int, alt: Seq<SpecSym>|
        0 <= k < a.len() && !a[k].terminal && has_head(g, a[k]) && alts_of(g, a[k]).contains(alt)
            && b == #[trigger] a.take(k).add(alt).add(a.skip(k + 1));
    let n = a[k];
    let pre = a.take(k);
    let post = a.skip(k + 1);
    assert(a =~= pre.add(seq![n].add(post)));
    assert(b =~= pre.add(alt.add(post)));
    // the alternative's contribution lies inside the table's entry
    let hi = head_idx_in(ps, n);
    assert(0 <= hi < ps.len() && sym_of(ps[hi].head) == n);
    let aj = choose|aj: int| 0 <= aj < alts_of(g, n).len() && alts_of(g, n)[aj] == alt;
    assert(alt == syms_of(ps[hi].alternatives@[aj]@));
    assert(alt_first(m, syms_of(ps[hi].alternatives@[aj]@)).subset_of(m[n]));
    assert(m.dom().contains(n));
    assert forall|k2: int| 0 <= k2 < alt.len() && (#[trigger] alt[k2]) == eps_sym() implies alt.len()
        == 1 by {
        assert(alt[k2] == sym_of(ps[hi].alternatives@[aj]@[k2]));
    };
    lemma_sent_eq_alt_first(m, alt);
    assert(sent_first(m, alt).subset_of(m[n]));
    // the nonterminal alone evaluates to exactly its table entry
    lemma_sent_single(m, n);
    // chain the decompositions of both sides
    lemma_sent_concat(m, pre, seq![n].add(post));
    lemma_sent_concat(m, pre, alt.add(post));
    lemma_sent_concat(m, seq![n], post);
    lemma_sent_concat(m, alt, post);
    lemma_sent_chain_monotone(
        sent_first(m, alt),
        sent_first(m, seq![n]),
        sent_first(m, post),
        sent_first(m, post),
    );
    lemma_sent_chain_monotone(
        sent_first(m, pre),
        sent_first(m, pre),
        sent_first(m, alt.add(post)),
        sent_first(m, seq![n].add(post)),
    );
    assert(sent_first(m, b) == sent_first(m, pre.add(alt.add(post))));
    assert(sent_first(m, a) == sent_first(m, pre.add(seq![n].add(post))));
}

/// Over any number of steps, the evaluation only shrinks.
proof fn lemma_derives_sent(
    g: Grammar,
    m: Map<SpecSym, Set<SpecSym>>,
    a: Seq<SpecSym>,
    b: Seq<SpecSym>,
    fuel: nat,
)
    requires
        first_closed_in(g.pro_list@, m),
        eps_stands_alone(g),
        derives_n(g, a, b, fuel),
    ensures
        sent_first(m, b).subset_of(sent_first(m, a)),
    decreases fuel,
{
    if a == b {
    } else {
        let mid = choose|mid: Seq<SpecSym>| #[trigger]
            derive_step(g, a, mid) && derives_n(g, mid, b, (fuel - 1) as nat);
        lemma_sent_step(g, m, a, mid);
        lemma_derives_sent(g, m, mid, b, (fuel - 1) as nat);
    }
}

/// FIRST-set soundness over derivations: for every terminal string
/// derivable from a nonterminal, the string's leading symbol — the empty
/// markers skipped — is in that nonterminal's FIRST set.  In particular,
/// a derivative consisting of empty markers alone (or of nothing) puts
/// the empty marker into the FIRST set, which is how the table signals
/// that the nonterminal can derive the empty string.
pub proof fn lemma_first_derivation_sound(g: Grammar, n: SpecSym, w: Seq<SpecSym>, fuel: nat)
    requires
        first_computed(g),
        eps_stands_alone(g),
        !n.terminal,
        has_head(g, n),
        derives_n(g, seq![n], w, fuel),
        all_terminal(w),
    ensures
        first_of(g, n).contains(lead_sym(w)),
{
    let m = ftab_of(g.first_sets@);
    let ps = g.pro_list@;
    let hi = head_idx_in(ps, n);
    assert(0 <= hi < ps.len() && sym_of(ps[hi].head) == n);
    assert(ps[hi].alternatives@.len() > 0);
    assert(alt_first(m, syms_of(ps[hi].alternatives@[0]@)).subset_of(m[n]));
    assert(m.dom().contains(n));
    assert(m[n] == first_of(g, n));
    lemma_derives_sent(g, m, seq![n], w, fuel);
    lemma_sent_terminal(m, w);
    assert(sent_first(m, w).contains(lead_sym(w)));
    lemma_sent_single(m, n);
}

/// Derivability survives extra fuel.
proof fn lemma_derives_mono(g: Grammar, a: Seq<SpecSym>, b: Seq<SpecSym>, f1: nat, f2: nat)
    requires
        derives_n(g, a, b, f1),
        f1 <= f2,
    ensures
        derives_n(g, a, b, f2),
    decreases f1,
{
    if a == b {
    } else {
        let mid = choose|mid: Seq<SpecSym>| #[trigger]
            derive_step(g, a, mid) && derives_n(g, mid, b, (f1 - 1) as nat);
        lemma_derives_mono(g, mid, b, (f1 - 1) as nat, (f2 - 1) as nat);
    }
}

/// Derivations compose.
proof fn lemma_derives_trans(
    g: Grammar,
    a: Seq<SpecSym>,
    b: Seq<SpecSym>,
    c: Seq<SpecSym>,
    f1: nat,
    f2: nat,
)
    requires
        derives_n(g, a, b, f1),
        derives_n(g, b, c, f2),
    ensures
        derives_n(g, a, c, (f1 + f2) as nat),
    decreases f1,
{
    if a == b {
        lemma_derives_mono(g, b, c, f2, (f1 + f2) as nat);
    } else {
        let mid = choose|mid: Seq<SpecSym>| #[trigger]
            derive_step(g, a, mid) && derives_n(g, mid, b, (f1 - 1) as nat);
        lemma_derives_trans(g, mid, b, c, (f1 - 1) as nat, f2);
        assert(derives_n(g, mid, c, (f1 - 1 + f2) as nat));
    }
}

/// One derivation step embeds into any surrounding context.
proof fn lemma_step_embed(
    g: Grammar,
    x: Seq<SpecSym>,
    y: Seq<SpecSym>,
    pre: Seq<SpecSym>,
    post: Seq<SpecSym>,
)
    requires
        derive_step(g, x, y),
    ensures
        derive_step(g, pre + x + post, pre + y + post),
{
    let (k, alt) = choose|k: int, alt: Seq<SpecSym>|
        0 <= k < x.len() && !x[k].terminal && has_head(g, x[k]) && alts_of(g, x[k]).contains(alt)
            && y == #[trigger] x.take(k).add(alt).add(x.skip(k + 1));
    let w = pre + x + post;
    let k2 = pre.len() + k;
    assert(w[k2 as int] == x[k]);
    assert(w.take(k2 as int) =~= pre + x.take(k));
    assert(w.skip(k2 as int + 1) =~= x.skip(k + 1) + post);
    assert(pre + y + post =~= w.take(k2 as int).add(alt).add(w.skip(k2 as int + 1)));
    assert(derive_step(g, w, pre + y + post)) by {
        assert(0 <= k2 < w.len() && !w[k2 as int].terminal && has_head(g, w[k2 as int]) && alts_of(
            g,
            w[k2 as int],
        ).contains(alt) && (pre + y + post) == w.take(k2 as int).add(alt).add(
            w.skip(k2 as int + 1),
        ));
    }
}

/// A derivation embeds into any surrounding context.
proof fn lemma_derives_embed(
    g: Grammar,
    x: Seq<SpecSym>,
    y: Seq<SpecSym>,
    pre: Seq<SpecSym>,
    post: Seq<SpecSym>,
    f: nat,
)
    requires
        derives_n(g, x, y, f),
    ensures
        derives_n(g, pre + x + post, pre + y + post, f),
    decreases f,
{
    if x == y {
    } else {
        let mid = choose|mid: Seq<SpecSym>| #[trigger]
            derive_step(g, x, mid) && derives_n(g, mid, y, (f - 1) as nat);
        lemma_step_embed(g, x, mid, pre, post);
        lemma_derives_embed(g, mid, y, pre, post, (f - 1) as nat);
        assert(derive_step(g, pre + x + post, pre + mid + post) && derives_n(
            g,
            pre + mid + post,
            pre + y + post,
            (f - 1) as nat,
        ));
    }
}

/// A form led by a non-marker keeps its lead under appending.
proof fn lemma_lead_concat_nonmark(x: Seq<SpecSym>, y: Seq<SpecSym>)
    requires
        lead_sym(x) != eps_sym(),
    ensures
        lead_sym(x + y) == lead_sym(x),
    decreases x.len(),
{
    if x.len() == 0 {
    } else {
        assert((x + y)[0] == x[0]);
        if x[0] == eps_sym() {
            assert((x + y).drop_first() =~= x.drop_first() + y);
            lemma_lead_concat_nonmark(x.drop_first(), y);
        } else {
        }
    }
}

/// A form of markers alone passes the lead to what follows it.
proof fn lemma_lead_concat_mark(x: Seq<SpecSym>, y: Seq<SpecSym>)
    requires
        lead_sym(x) == eps_sym(),
        forall|k: int| 0 <= k < x.len() ==> #[trigger] x[k] == eps_sym(),
    ensures
        lead_sym(x + y) == lead_sym(y),
    decreases x.len(),
{
    if x.len() == 0 {
        assert(x + y =~= y);
    } else {
        assert((x + y)[0] == x[0]);
        assert((x + y).drop_first() =~= x.drop_first() + y);
        assert forall|k: int| 0 <= k < x.drop_first().len() implies #[trigger] x.drop_first()[k]
            == eps_sym() by {
            assert(x.drop_first()[k] == x[k + 1]);
        };
        lemma_lead_concat_mark(x.drop_first(), y);
    }
}

/// A lead of the empty marker means the form is markers alone.
proof fn lemma_lead_eps_all_marks(x: Seq<SpecSym>)
    requires
        lead_sym(x) == eps_sym(),
    ensures
        forall|k: int| 0 <= k < x.len() ==> #[trigger] x[k] == eps_sym(),
    decreases x.len(),
{
    if x.len() == 0 {
    } else {
        if x[0] == eps_sym() {
            lemma_lead_eps_all_marks(x.drop_first());
            assert forall|k: int| 0 <= k < x.len() implies #[trigger] x[k] == eps_sym() by {
                if k > 0 {
                    assert(x.drop_first()[k - 1] == x[k]);
                }
            };
        } else {
            assert(lead_sym(x) == x[0]);
            assert(false);
        }
    }
}

/// Some derivative of `alt` leads with `a`, markers skipped.
pub open spec fn seq_witnessed(g: Grammar, alt: Seq<SpecSym>, a: SpecSym) -> bool {
    exists|w: Seq<SpecSym>, fuel: nat| #[trigger] derives_n(g, alt, w, fuel) && lead_sym(w) == a
}

/// The table of derivation-witnessed FIRST members.
pub open spec fn wtab(g: Grammar) -> Map<SpecSym, Set<SpecSym>> {
    Map::new(
        |h: SpecSym| has_head(g, h),
        |h: SpecSym| Set::new(|a: SpecSym| seq_witnessed(g, seq![h], a)),
    )
}

/// Every member of a body's contribution under the witnessed table is
/// itself witnessed by a derivation from that body.
proof fn lemma_alt_first_witnessed(g: Grammar, alt: Seq<SpecSym>)
    requires
        forall|k: int| 0 <= k < alt.len() && (#[trigger] alt[k]) == eps_sym() ==> alt.len() == 1,
    ensures
        forall|a: SpecSym| #[trigger]
            alt_first(wtab(g), alt).contains(a) ==> seq_witnessed(g, alt, a),
    decreases alt.len(),
{
    assert forall|a: SpecSym| #[trigger]
        alt_first(wtab(g), alt).contains(a) implies seq_witnessed(g, alt, a) by {
        if alt.len() == 0 {
            assert(a == eps_sym());
            assert(derives_n(g, alt, alt, 0) && lead_sym(alt) == a);
        } else if alt[0].terminal {
            assert(a == alt[0]);
            assert(lead_sym(alt) == alt[0]) by {
                if alt[0] == eps_sym() {
                    assert(alt.len() == 1);
                    assert(alt.drop_first() =~= Seq::<SpecSym>::empty());
                    assert(lead_sym(alt.drop_first()) == eps_sym());
                }
            }
            assert(derives_n(g, alt, alt, 0) && lead_sym(alt) == a);
        } else {
            let x = alt[0];
            let rest = alt.drop_first();
            assert(wtab(g).dom().contains(x));
            let f = wtab(g)[x];
            assert(seq![x] + rest =~= alt);
            if f.contains(a) && a != eps_sym() {
                assert(seq_witnessed(g, seq![x], a));
                let (wx, fx) = choose|wx: Seq<SpecSym>, fuel: nat| #[trigger]
                    derives_n(g, seq![x], wx, fuel) && lead_sym(wx) == a;
                lemma_derives_embed(g, seq![x], wx, Seq::empty(), rest, fx);
                assert(Seq::<SpecSym>::empty() + seq![x] + rest =~= alt);
                assert(Seq::<SpecSym>::empty() + wx + rest =~= wx + rest);
                lemma_lead_concat_nonmark(wx, rest);
                assert(derives_n(g, alt, wx + rest, fx) && lead_sym(wx + rest) == a);
            } else {
                assert(f.contains(eps_sym()));
                assert(alt_first(wtab(g), rest).contains(a));
                assert forall|k: int|
                    0 <= k < rest.len() && (#[trigger] rest[k]) == eps_sym() implies rest.len()
                    == 1 by {
                    assert(rest[k] == alt[k + 1]);
                    assert(alt.len() == 1);
                    assert(false);
                };
                lemma_alt_first_witnessed(g, rest);
                assert(seq_witnessed(g, rest, a));
                let (wx, fx) = choose|wx: Seq<SpecSym>, fuel: nat| #[trigger]
                    derives_n(g, seq![x], wx, fuel) && lead_sym(wx) == eps_sym();
                let (wr, fr) = choose|wr: Seq<SpecSym>, fuel: nat| #[trigger]
                    derives_n(g, rest, wr, fuel) && lead_sym(wr) == a;
                lemma_derives_embed(g, seq![x], wx, Seq::empty(), rest, fx);
                assert(Seq::<SpecSym>::empty() + seq![x] + rest =~= alt);
                assert(Seq::<SpecSym>::empty() + wx + rest =~= wx + rest);
                lemma_derives_embed(g, rest, wr, wx, Seq::empty(), fr);
                assert(wx + rest + Seq::<SpecSym>::empty() =~= wx + rest);
                assert(wx + wr + Seq::<SpecSym>::empty() =~= wx + wr);
                lemma_derives_trans(g, alt, wx + rest, wx + wr, fx, fr);
                lemma_lead_eps_all_marks(wx);
                lemma_lead_concat_mark(wx, wr);
                assert(derives_n(g, alt, wx + wr, (fx + fr) as nat) && lead_sym(wx + wr) == a);
            }
        }
    };
}

/// The witnessed table is closed under the FIRST equations.
proof fn lemma_wtab_closed(g: Grammar)
    requires
        first_computed(g),
        eps_stands_alone(g),
    ensures
        first_closed_in(g.pro_list@, wtab(g)),
{
    let ps = g.pro_list@;
    assert forall|i: int, j: int|
        0 <= i < ps.len() && 0 <= j < ps[i].alternatives@.len() implies wtab(g).dom().contains(
        sym_of(ps[i].head),
    ) && (#[trigger] alt_first(wtab(g), syms_of(ps[i].alternatives@[j]@))).subset_of(
        wtab(g)[sym_of(ps[i].head)],
    ) by {
        let h = sym_of(ps[i].head);
        assert(has_head(g, h));
        let alt = syms_of(ps[i].alternatives@[j]@);
        assert forall|k: int|
            0 <= k < alt.len() && (#[trigger] alt[k]) == eps_sym() implies alt.len() == 1 by {
            assert(alt[k] == sym_of(ps[i].alternatives@[j]@[k]));
        };
        lemma_alt_first_witnessed(g, alt);
        assert forall|a: SpecSym| alt_first(wtab(g), alt).contains(a) implies wtab(
            g,
        )[h].contains(a) by {
            assert(seq_witnessed(g, alt, a));
            let (w, fw) = choose|w: Seq<SpecSym>, fuel: nat| #[trigger]
                derives_n(g, alt, w, fuel) && lead_sym(w) == a;
            // one step from the head to this alternative
            assert(derive_step(g, seq![h], alt)) by {
                let hi = head_idx_in(ps, h);
                assert(alts_of(g, h).contains(alt)) by {
                    assert(alts_of(g, h)[j] == alt);
                }
                assert(seq![h].take(0) =~= Seq::<SpecSym>::empty());
                assert(seq![h].skip(1) =~= Seq::<SpecSym>::empty());
                assert(Seq::<SpecSym>::empty() + alt + Seq::<SpecSym>::empty() =~= alt);
                assert(0 <= 0 < seq![h].len() && !seq![h][0].terminal && has_head(g, seq![h][0])
                    && alts_of(g, seq![h][0]).contains(alt) && alt == seq![h].take(0).add(
                    alt,
                ).add(seq![h].skip(1)));
            }
            assert(derives_n(g, seq![h], alt, 1)) by {
                assert(derive_step(g, seq![h], alt) && derives_n(g, alt, alt, 0nat));
            }
            lemma_derives_trans(g, seq![h], alt, w, 1, fw);
            assert(derives_n(g, seq![h], w, (1 + fw) as nat) && lead_sym(w) == a);
        };
    };
}

/// FIRST-set completeness over derivations: every member of a computed
/// FIRST set is realized by some derivation, a sentential form whose
/// leading non-marker symbol is that member.  In particular, the empty
/// marker in a FIRST set means the nonterminal derives a form of empty
/// markers alone: it is nullable.
pub proof fn lemma_first_derivation_complete(g: Grammar, n: SpecSym, a: SpecSym)
    requires
        first_computed(g),
        eps_stands_alone(g),
        has_head(g, n),
        first_of(g, n).contains(a),
    ensures
        seq_witnessed(g, seq![n], a),
{
    lemma_wtab_closed(g);
    crate::grammar::lemma_first_minimal(g, wtab(g), n, a);
    assert(wtab(g)[n].contains(a));
}

} // verus!
