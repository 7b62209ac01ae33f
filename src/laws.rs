//! Properties of the compiled grammar and of the tokenizer, proved over the
//! specifications of the functions that build them.
use crate::grammar::{alt_of, eof_name, load_grammar, root_alts, sym_of, GrammarView, Sym};
use crate::names::{add_name, add_names, without};
use crate::sets::{
    first_alts, first_of, first_sets, follow_alts, follow_heads, follow_sets, follow_upto,
    prev_follow, scan_alt, Scan,
};
use crate::tokenizer::{
    atom_spans, atom_view, atom_views, epsilon_name, is_break, lex_run, lex_start, lex_step, run_end,
    tokenize, LexState, PatternView, TokenView,
};
use vstd::prelude::*;

verus! {

proof fn lemma_add_name(s: Seq<Seq<char>>, x: Seq<char>, y: Seq<char>)
    ensures
        add_name(s, x).contains(y) <==> s.contains(y) || x == y,
{
    if !s.contains(x) {
        assert(s.push(x)[s.len() as int] == x);
        if s.push(x).contains(y) && x != y {
            let k = choose|k: int| 0 <= k < s.push(x).len() && s.push(x)[k] == y;
            assert(s[k] == y);
        }
        if s.contains(y) {
            let k = choose|k: int| 0 <= k < s.len() && s[k] == y;
            assert(s.push(x)[k] == y);
        }
    }
}

proof fn lemma_add_names(s: Seq<Seq<char>>, xs: Seq<Seq<char>>, y: Seq<char>)
    ensures
        add_names(s, xs).contains(y) <==> s.contains(y) || xs.contains(y),
    decreases xs.len(),
{
    if xs.len() > 0 {
        lemma_add_names(s, xs.drop_last(), y);
        lemma_add_name(add_names(s, xs.drop_last()), xs.last(), y);
        assert(xs =~= xs.drop_last().push(xs.last()));
        if xs.contains(y) && !xs.drop_last().contains(y) {
            let k = choose|k: int| 0 <= k < xs.len() && xs[k] == y;
            if k < xs.len() - 1 {
                assert(xs.drop_last()[k] == y);
            }
        }
        if xs.drop_last().contains(y) {
            let k = choose|k: int| 0 <= k < xs.drop_last().len() && xs.drop_last()[k] == y;
            assert(xs[k] == y);
        }
    }
}

proof fn lemma_without(xs: Seq<Seq<char>>, w: Seq<char>)
    ensures
        !without(xs, w).contains(w),
{
    broadcast use vstd::seq_lib::group_filter_ensures;

    if without(xs, w).contains(w) {
        let k = choose|k: int| 0 <= k < without(xs, w).len() && without(xs, w)[k] == w;
    }
}

/// No set in `prev` holds `epsilon`.
pub open spec fn clean(prev: Seq<Seq<Seq<char>>>) -> bool {
    forall|h: int| 0 <= h < prev.len() ==> !(#[trigger] prev[h]).contains(epsilon_name())
}

proof fn lemma_scan_clean(
    g: GrammarView,
    fs: Seq<Seq<Seq<char>>>,
    prev: Seq<Seq<Seq<char>>>,
    a: int,
    h: int,
    alt: Seq<Sym>,
    pos: int,
    st: Scan,
)
    requires
        clean(prev),
        !st.acc.contains(epsilon_name()),
    ensures
        !scan_alt(g, fs, prev, a, h, alt, pos, st).acc.contains(epsilon_name()),
    decreases alt.len() - pos,
{
    if 0 <= pos < alt.len() {
        match alt[pos] {
            Sym::Term(n) => {
                lemma_add_name(st.acc, n, epsilon_name());
                lemma_scan_clean(g, fs, prev, a, h, alt, pos + 1, st);
            },
            Sym::Nonterm(n) => {
                let x = g.index_of(n);
                if 0 <= h < prev.len() {
                    assert(!prev[h].contains(epsilon_name()));
                } else {
                    assert(!Seq::<Seq<char>>::empty().contains(epsilon_name()));
                }
                lemma_without(fs[x], epsilon_name());
                lemma_add_names(st.acc, without(fs[x], epsilon_name()), epsilon_name());
                let acc1 = if g.heads.contains(n) {
                    add_names(st.acc, without(fs[x], epsilon_name()))
                } else {
                    st.acc
                };
                lemma_add_names(acc1, prev_follow(prev, h), epsilon_name());
                let acc2 = if g.heads.contains(n) && crate::grammar::has_epsilon_alt(g.bodies[x]) {
                    add_names(acc1, prev_follow(prev, h))
                } else {
                    acc1
                };
                lemma_scan_clean(g, fs, prev, a, h, alt, pos + 1, st);
                lemma_scan_clean(g, fs, prev, a, h, alt, pos + 1, Scan { found: true, ..st });
                lemma_scan_clean(
                    g,
                    fs,
                    prev,
                    a,
                    h,
                    alt,
                    pos + 1,
                    Scan { acc: acc2, found: true, resolved: true },
                );
            },
        }
    }
}

proof fn lemma_follow_alts_clean(
    g: GrammarView,
    fs: Seq<Seq<Seq<char>>>,
    prev: Seq<Seq<Seq<char>>>,
    a: int,
    h: int,
    m: int,
    acc: Seq<Seq<char>>,
)
    requires
        clean(prev),
        !acc.contains(epsilon_name()),
    ensures
        !follow_alts(g, fs, prev, a, h, m, acc).contains(epsilon_name()),
    decreases m,
{
    if m > 0 {
        lemma_follow_alts_clean(g, fs, prev, a, h, m - 1, acc);
        let acc0 = follow_alts(g, fs, prev, a, h, m - 1, acc);
        let alt = g.bodies[h][m - 1];
        let st = scan_alt(g, fs, prev, a, h, alt, 0, Scan { acc: acc0, found: false, resolved: false });
        lemma_scan_clean(g, fs, prev, a, h, alt, 0, Scan { acc: acc0, found: false, resolved: false });
        lemma_add_names(st.acc, prev_follow(prev, h), epsilon_name());
        if 0 <= h < prev.len() {
            assert(!prev[h].contains(epsilon_name()));
        } else {
            assert(!Seq::<Seq<char>>::empty().contains(epsilon_name()));
        }
    }
}

proof fn lemma_follow_heads_clean(
    g: GrammarView,
    fs: Seq<Seq<Seq<char>>>,
    prev: Seq<Seq<Seq<char>>>,
    a: int,
    k: int,
)
    requires
        clean(prev),
    ensures
        !follow_heads(g, fs, prev, a, k).contains(epsilon_name()),
    decreases k,
{
    if k > 0 {
        lemma_follow_heads_clean(g, fs, prev, a, k - 1);
        lemma_follow_alts_clean(
            g,
            fs,
            prev,
            a,
            k - 1,
            g.bodies[k - 1].len() as int,
            follow_heads(g, fs, prev, a, k - 1),
        );
    }
}

proof fn lemma_follow_upto_clean(g: GrammarView, fs: Seq<Seq<Seq<char>>>, i: int)
    ensures
        clean(follow_upto(g, fs, i)),
        follow_upto(g, fs, i).len() == if i < 0 { 0 } else { i },
    decreases i,
{
    if i > 0 {
        lemma_follow_upto_clean(g, fs, i - 1);
        let prev = follow_upto(g, fs, i - 1);
        lemma_follow_heads_clean(g, fs, prev, i - 1, g.heads.len() as int);
        let r = follow_upto(g, fs, i);
        assert forall|h: int| 0 <= h < r.len() implies !(#[trigger] r[h]).contains(epsilon_name()) by {
            if h < i - 1 {
                assert(r[h] == prev[h]);
            }
        }
    }
}

/// No FOLLOW set holds `epsilon`, whatever the grammar and its FIRST sets.
pub proof fn lemma_follow_never_epsilon(g: GrammarView, fs: Seq<Seq<Seq<char>>>)
    ensures
        forall|a: int|
            0 <= a < follow_sets(g, fs).len() ==> !(#[trigger] follow_sets(g, fs)[a]).contains(
                epsilon_name(),
            ),
{
    lemma_follow_upto_clean(g, fs, g.heads.len() as int);
}

/// Whether a pattern is named `n`.
pub open spec fn pattern_named(ps: Seq<PatternView>, n: Seq<char>) -> bool {
    exists|i: int| 0 <= i < ps.len() && (#[trigger] ps[i]).name == n
}

/// Every alternative that starts with a terminal starts with a pattern's name.
pub open spec fn leads_with_patterns(g: GrammarView, ps: Seq<PatternView>) -> bool {
    forall|a: int, j: int|
        0 <= a < g.bodies.len() && 0 <= j < g.bodies[a].len() && (#[trigger] g.bodies[a][j]).len()
            > 0 && g.bodies[a][j][0] is Term ==> pattern_named(ps, g.bodies[a][j][0]->Term_0)
}

pub open spec fn alts_lead_with_patterns(alts: Seq<Seq<Sym>>, ps: Seq<PatternView>) -> bool {
    forall|j: int|
        0 <= j < alts.len() && (#[trigger] alts[j]).len() > 0 && alts[j][0] is Term
            ==> pattern_named(ps, alts[j][0]->Term_0)
}

proof fn lemma_define_leads(g: GrammarView, ps: Seq<PatternView>, head: Seq<char>, alts: Seq<Seq<Sym>>)
    requires
        g.wf(),
        leads_with_patterns(g, ps),
        alts_lead_with_patterns(alts, ps),
    ensures
        leads_with_patterns(g.define(head, alts), ps),
        g.define(head, alts).wf(),
{
    let g2 = g.define(head, alts);
    if g.heads.contains(head) {
        let x = g.heads.index_of(head);
        assert forall|a: int, j: int|
            0 <= a < g2.bodies.len() && 0 <= j < g2.bodies[a].len() && (#[trigger] g2.bodies[a][j]).len()
                > 0 && g2.bodies[a][j][0] is Term implies pattern_named(ps, g2.bodies[a][j][0]->Term_0) by {
            if a == x {
                assert(g2.bodies[a] == alts);
            } else {
                assert(g2.bodies[a] == g.bodies[a]);
            }
        }
    } else {
        assert forall|a: int, j: int|
            0 <= a < g2.bodies.len() && 0 <= j < g2.bodies[a].len() && (#[trigger] g2.bodies[a][j]).len()
                > 0 && g2.bodies[a][j][0] is Term implies pattern_named(ps, g2.bodies[a][j][0]->Term_0) by {
            if a == g.bodies.len() {
                assert(g2.bodies[a] == alts);
            } else {
                assert(g2.bodies[a] == g.bodies[a]);
            }
        }
        assert(g2.heads.no_duplicates()) by {
            assert forall|i: int, k: int| 0 <= i < k < g2.heads.len() implies g2.heads[i] != g2.heads[k] by {
                if k == g.heads.len() {
                    assert(g.heads[i] != head);
                }
            }
        }
    }
}

proof fn lemma_load_leads(
    t: Seq<char>,
    ps: Seq<PatternView>,
    lines: Seq<(int, int)>,
    g: GrammarView,
)
    requires
        g.wf(),
        leads_with_patterns(g, ps),
    ensures
        leads_with_patterns(load_grammar(t, ps, lines, g), ps),
        load_grammar(t, ps, lines, g).wf(),
    decreases lines.len(),
{
    if lines.len() > 0 {
        let l = lines[0];
        if crate::grammar::line_arrow(t, l) < l.1 {
            let head = crate::grammar::line_head(t, l);
            let g1 = if g.heads.len() == 0 {
                g.define(crate::grammar::root_name(), root_alts(head))
            } else {
                g
            };
            if g.heads.len() == 0 {
                assert(alts_lead_with_patterns(root_alts(head), ps)) by {
                    assert forall|j: int|
                        0 <= j < root_alts(head).len() && (#[trigger] root_alts(head)[j]).len() > 0
                            && root_alts(head)[j][0] is Term implies pattern_named(
                        ps,
                        root_alts(head)[j][0]->Term_0,
                    ) by {
                        assert(root_alts(head)[j][0] == Sym::Nonterm(head));
                    }
                }
                lemma_define_leads(g, ps, crate::grammar::root_name(), root_alts(head));
            }
            let alts = crate::grammar::line_alts(t, ps, l);
            assert(alts_lead_with_patterns(alts, ps)) by {
                assert forall|j: int|
                    0 <= j < alts.len() && (#[trigger] alts[j]).len() > 0 && alts[j][0] is Term
                        implies pattern_named(ps, alts[j][0]->Term_0) by {
                    let parts = crate::text::split_ranges(t, '|', crate::grammar::line_arrow(t, l) + 2, l.1);
                    let alt = alts[j];
                    assert(alt == alt_of(t, ps, parts[j]));
                    let w = crate::text::word_ranges(t, parts[j].0, parts[j].1)[0];
                    assert(alt[0] == sym_of(ps, t.subrange(w.0, w.1)));
                }
            }
            lemma_define_leads(g1, ps, head, alts);
            lemma_load_leads(t, ps, lines.drop_first(), g1.define(head, alts));
        } else {
            lemma_load_leads(t, ps, lines.drop_first(), g);
        }
    }
}

proof fn lemma_first_alts_patterns(
    g: GrammarView,
    ps: Seq<PatternView>,
    depth: nat,
    a: int,
    m: int,
    y: Seq<char>,
)
    requires
        g.wf(),
        leads_with_patterns(g, ps),
        first_alts(g, depth, a, m).contains(y),
    ensures
        pattern_named(ps, y),
    decreases depth, m,
{
    if !(depth == 0 || m <= 0 || a < 0 || a >= g.bodies.len() || m > g.bodies[a].len()) {
        let acc = first_alts(g, depth, a, m - 1);
        let alt = g.bodies[a][m - 1];
        if acc.contains(y) {
            lemma_first_alts_patterns(g, ps, depth, a, m - 1, y);
        } else if alt.len() > 0 {
            match alt[0] {
                Sym::Term(n) => {
                    lemma_add_name(acc, n, y);
                },
                Sym::Nonterm(n) => {
                    if g.heads.contains(n) {
                        let b = g.index_of(n);
                        let sub = first_of(g, (depth - 1) as nat, b);
                        lemma_add_names(acc, sub, y);
                        if (depth - 1) as nat != 0 && 0 <= b < g.bodies.len() {
                            lemma_first_alts_patterns(
                                g,
                                ps,
                                (depth - 1) as nat,
                                b,
                                g.bodies[b].len() as int,
                                y,
                            );
                        }
                    }
                },
            }
        }
    }
}

/// Where no pattern is named `$`, no FIRST set of a loaded grammar holds `$`.
pub proof fn lemma_first_never_eof(ps: Seq<PatternView>, text: Seq<char>)
    requires
        forall|i: int| 0 <= i < ps.len() ==> (#[trigger] ps[i]).name != eof_name(),
    ensures
        forall|a: int|
            0 <= a < crate::parser::compiled(ps, text).first.len() ==> !(#[trigger] crate::parser::compiled(
                ps,
                text,
            ).first[a]).contains(eof_name()),
{
    let g0 = GrammarView { heads: Seq::empty(), bodies: Seq::empty() };
    let g = load_grammar(text, ps, crate::text::line_ranges(text, 0), g0);
    lemma_load_leads(text, ps, crate::text::line_ranges(text, 0), g0);
    assert forall|a: int| 0 <= a < first_sets(g).len() implies !(#[trigger] first_sets(g)[a]).contains(
        eof_name(),
    ) by {
        if first_sets(g)[a].contains(eof_name()) {
            lemma_first_alts_patterns(g, ps, g.heads.len(), a, g.bodies[a].len() as int, eof_name());
        }
    }
}

/// The characters of `s` other than the breaks between atoms.
pub open spec fn without_breaks(s: Seq<char>) -> Seq<char>
    decreases s.len(),
{
    if s.len() == 0 {
        Seq::empty()
    } else if is_break(s[0]) {
        without_breaks(s.drop_first())
    } else {
        seq![s[0]] + without_breaks(s.drop_first())
    }
}

/// The texts of atoms, one after another.
pub open spec fn atoms_text(xs: Seq<(Seq<char>, int, int)>) -> Seq<char>
    decreases xs.len(),
{
    if xs.len() == 0 {
        Seq::empty()
    } else {
        xs[0].0 + atoms_text(xs.drop_first())
    }
}

/// The lexemes of tokens, one after another.
pub open spec fn lexemes(ts: Seq<TokenView>) -> Seq<char>
    decreases ts.len(),
{
    if ts.len() == 0 {
        Seq::empty()
    } else {
        lexemes(ts.drop_last()) + ts.last().value
    }
}

pub open spec fn pending(st: LexState) -> Seq<char> {
    match st.lookup {
        Some(b) => b.0,
        None => Seq::empty(),
    }
}

proof fn lemma_run_text(t: Seq<char>, i: int)
    requires
        0 <= i <= t.len(),
    ensures
        i <= run_end(t, i) <= t.len(),
        without_breaks(t.subrange(i, t.len() as int)) == t.subrange(i, run_end(t, i))
            + without_breaks(t.subrange(run_end(t, i), t.len() as int)),
    decreases t.len() - i,
{
    let e = run_end(t, i);
    if e == i {
        assert(t.subrange(i, e) =~= Seq::<char>::empty());
        assert(t.subrange(i, e) + without_breaks(t.subrange(e, t.len() as int)) =~= without_breaks(
            t.subrange(e, t.len() as int),
        ));
    } else {
        lemma_run_text(t, i + 1);
        assert(t.subrange(i, t.len() as int).drop_first() =~= t.subrange(i + 1, t.len() as int));
        assert(t.subrange(i, e) =~= seq![t[i]] + t.subrange(i + 1, e));
    }
}

proof fn lemma_atoms_text(t: Seq<char>, i: int)
    requires
        0 <= i <= t.len(),
    ensures
        atoms_text(atom_spans(t, i).map_values(|s: (int, int)| atom_view(t, s))) == without_breaks(
            t.subrange(i, t.len() as int),
        ),
        forall|k: int|
            0 <= k < atom_spans(t, i).len() ==> (#[trigger] atom_spans(t, i)[k]).0 < atom_spans(
                t,
                i,
            )[k].1,
    decreases t.len() - i,
{
    let f = |s: (int, int)| atom_view(t, s);
    if i == t.len() {
        assert(t.subrange(i, t.len() as int) =~= Seq::<char>::empty());
        assert(atom_spans(t, i).map_values(f) =~= Seq::<(Seq<char>, int, int)>::empty());
    } else {
        assert(t.subrange(i, t.len() as int).drop_first() =~= t.subrange(i + 1, t.len() as int));
        if is_break(t[i]) {
            lemma_atoms_text(t, i + 1);
        } else if !crate::tokenizer::alphanumeric(t[i]) {
            lemma_atoms_text(t, i + 1);
            let rest = atom_spans(t, i + 1);
            assert((seq![(i, i + 1)] + rest).map_values(f) =~= seq![f((i, i + 1))] + rest.map_values(
                f,
            ));
            assert((seq![f((i, i + 1))] + rest.map_values(f)).drop_first() =~= rest.map_values(f));
            assert(t.subrange(i, i + 1) =~= seq![t[i]]);
        } else {
            lemma_run_text(t, i + 1);
            let e = run_end(t, i + 1);
            lemma_atoms_text(t, e);
            let rest = atom_spans(t, e);
            assert((seq![(i, e)] + rest).map_values(f) =~= seq![f((i, e))] + rest.map_values(f));
            assert((seq![f((i, e))] + rest.map_values(f)).drop_first() =~= rest.map_values(f));
            assert(t.subrange(i, e) =~= seq![t[i]] + t.subrange(i + 1, e));
        }
    }
}

proof fn lemma_lex_run_text(ps: Seq<PatternView>, st: LexState, atoms: Seq<(Seq<char>, int, int)>)
    requires
        st.lookup is Some <==> st.unmatched.len() > 0,
        forall|k: int| 0 <= k < atoms.len() ==> (#[trigger] atoms[k]).0.len() > 0,
    ensures
        lex_run(ps, st, atoms).lookup is Some <==> lex_run(ps, st, atoms).unmatched.len() > 0,
        lexemes(lex_run(ps, st, atoms).tokens) + pending(lex_run(ps, st, atoms)) == lexemes(st.tokens)
            + pending(st) + atoms_text(atoms),
    decreases atoms.len(),
{
    if atoms.len() == 0 {
        assert(lexemes(st.tokens) + pending(st) + atoms_text(atoms) =~= lexemes(st.tokens) + pending(
            st,
        ));
    } else {
        let a = atoms[0];
        let st2 = lex_step(ps, st, a);
        assert forall|k: int| 0 <= k < atoms.drop_first().len() implies (
        #[trigger] atoms.drop_first()[k]).0.len() > 0 by {
            assert(atoms.drop_first()[k] == atoms[k + 1]);
        }
        lemma_lex_run_text(ps, st2, atoms.drop_first());
        assert(atoms[0].0.len() > 0);
        let cur = match st.lookup {
            Some(b) => (b.0 + a.0, b.1, b.2),
            None => a,
        };
        assert(cur.0 =~= pending(st) + a.0);
        match crate::tokenizer::first_accepting(ps, cur.0, 0) {
            Some(k) => {
                let tv = TokenView { name: ps[k].name, value: cur.0, line: cur.1, column: cur.2 };
                assert(st2.tokens.push(tv).drop_last() =~= st2.tokens) by {
                    assert(st2.tokens == st.tokens.push(tv));
                }
                assert(st.tokens.push(tv).drop_last() =~= st.tokens);
                assert(lexemes(st2.tokens) == lexemes(st.tokens) + cur.0);
            },
            None => {},
        }
        assert(lexemes(st2.tokens) + pending(st2) + atoms_text(atoms.drop_first()) =~= lexemes(
            st.tokens,
        ) + pending(st) + atoms_text(atoms));
    }
}

/// The lexemes of a successful tokenization, one after another, are the
/// input with the breaks between atoms (spaces, tabs, carriage returns, line
/// feeds) taken out: put back between them, they give the input again.
pub proof fn lemma_lexemes_round_trip(ps: Seq<PatternView>, t: Seq<char>)
    requires
        tokenize(ps, t) is Ok,
    ensures
        lexemes(tokenize(ps, t)->Ok_0) == without_breaks(t),
{
    lemma_atoms_text(t, 0);
    assert(t.subrange(0, t.len() as int) =~= t);
    let atoms = atom_views(t);
    assert forall|k: int| 0 <= k < atoms.len() implies (#[trigger] atoms[k]).0.len() > 0 by {
        let sp = atom_spans(t, 0)[k];
        crate::tokenizer::lemma_atom_spans_within(t, 0);
        assert(atoms[k] == atom_view(t, sp));
    }
    lemma_lex_run_text(ps, lex_start(), atoms);
    assert(lexemes(Seq::empty()) + pending(lex_start()) + atoms_text(atoms) =~= atoms_text(atoms));
    let st = lex_run(ps, lex_start(), atoms);
    assert(lexemes(st.tokens) + pending(st) =~= lexemes(st.tokens));
}

/// After a grammar is loaded, each cell of the parse table, keyed by a
/// production and a terminal, holds one alternative: a row keys each
/// terminal once, and names one alternative of its production there.
pub proof fn lemma_table_cells_unique(ps: Seq<PatternView>, text: Seq<char>)
    ensures
        crate::parser::compiled(ps, text).wf(),
{
    let p = crate::parser::compiled(ps, text);
    let g0 = GrammarView { heads: Seq::empty(), bodies: Seq::empty() };
    lemma_load_leads(text, ps, crate::text::line_ranges(text, 0), g0);
    lemma_follow_upto_clean(p.grammar, p.first, p.grammar.heads.len() as int);
    assert forall|h: int| 0 <= h < p.table.len() implies (#[trigger] p.table[h]).wf()
        && crate::table::alts_below(p.table[h], p.grammar.bodies[h].len() as int) by {
        crate::table::lemma_row_upto(
            p.grammar.bodies[h],
            p.grammar.bodies[h].len() as int,
            p.first[h],
            p.follow[h],
        );
    }
}

} // verus!
