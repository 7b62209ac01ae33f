//! What the parser's tree spells out: its leaves from left to right, with the
//! nodes still waiting on the stack standing for themselves.
use crate::grammar::{
    eof_name, is_epsilon_alt, line_alts, line_arrow, line_head, load_grammar, root_alts, root_name,
    GrammarView, Sym,
};
use crate::parser::compiled;
use crate::parser::{
    arena_ok, lookahead, node_for, parse_result, run, start, step, tree_root, Machine, NodeView,
    Outcome, ParserView,
};
use crate::tokenizer::{
    first_accepting, lex_run, lex_start, lex_step, tokenize, LexState, PatternView, TokenView,
};
use vstd::prelude::*;

verus! {

/// An item of what a tree spells out: a leaf, as its name and text, or a node
/// that is still to be handled.
pub ghost enum Item {
    Done(Seq<char>, Seq<char>),
    Pending(int),
}

/// What node `x` spells out, the nodes in `s` standing for themselves.
pub open spec fn yield_of(ns: Seq<NodeView>, s: Set<int>, x: int) -> Seq<Item>
    decreases ns.len() - x, ns[x].children.len() + 1,
{
    if x < 0 || x >= ns.len() {
        Seq::empty()
    } else if s.contains(x) {
        seq![Item::Pending(x)]
    } else if ns[x].leaf {
        seq![Item::Done(ns[x].name, ns[x].value)]
    } else {
        yield_kids(ns, s, x, ns[x].children.len() as int)
    }
}

/// What the first `k` children of node `x` spell out.
pub open spec fn yield_kids(ns: Seq<NodeView>, s: Set<int>, x: int, k: int) -> Seq<Item>
    decreases ns.len() - x, k,
{
    if k <= 0 || x < 0 || x >= ns.len() || k > ns[x].children.len() {
        Seq::empty()
    } else {
        let c = ns[x].children[k - 1];
        yield_kids(ns, s, x, k - 1) + if x < c < ns.len() {
            yield_of(ns, s, c)
        } else {
            Seq::empty()
        }
    }
}

/// `ys` with each `Pending(id)` replaced by `zs`.
pub open spec fn subst(ys: Seq<Item>, id: int, zs: Seq<Item>) -> Seq<Item>
    decreases ys.len(),
{
    if ys.len() == 0 {
        Seq::empty()
    } else {
        subst(ys.drop_last(), id, zs) + if ys.last() == Item::Pending(id) {
            zs
        } else {
            seq![ys.last()]
        }
    }
}

pub proof fn lemma_subst_concat(a: Seq<Item>, b: Seq<Item>, id: int, zs: Seq<Item>)
    ensures
        subst(a + b, id, zs) == subst(a, id, zs) + subst(b, id, zs),
    decreases b.len(),
{
    if b.len() == 0 {
        assert(a + b =~= a);
        assert(subst(a, id, zs) + subst(b, id, zs) =~= subst(a, id, zs));
    } else {
        lemma_subst_concat(a, b.drop_last(), id, zs);
        assert((a + b).drop_last() =~= a + b.drop_last());
        assert((a + b).last() == b.last());
        let tail = if b.last() == Item::Pending(id) {
            zs
        } else {
            seq![b.last()]
        };
        assert(subst(a, id, zs) + subst(b.drop_last(), id, zs) + tail =~= subst(a, id, zs) + (subst(
            b.drop_last(),
            id,
            zs,
        ) + tail));
    }
}

/// A sequence without `Pending(id)` is left as it is.
pub proof fn lemma_subst_absent(ys: Seq<Item>, id: int, zs: Seq<Item>)
    requires
        !ys.contains(Item::Pending(id)),
    ensures
        subst(ys, id, zs) == ys,
    decreases ys.len(),
{
    if ys.len() > 0 {
        assert(!ys.drop_last().contains(Item::Pending(id))) by {
            if ys.drop_last().contains(Item::Pending(id)) {
                let k = choose|k: int| 0 <= k < ys.drop_last().len() && ys.drop_last()[k] == Item::Pending(id);
                assert(ys[k] == Item::Pending(id));
            }
        }
        lemma_subst_absent(ys.drop_last(), id, zs);
        assert(ys.last() == ys[ys.len() - 1]);
        assert(ys.drop_last().push(ys.last()) =~= ys);
        assert(subst(ys.drop_last(), id, zs) + seq![ys.last()] =~= ys.drop_last().push(ys.last()));
    }
}

/// The change of one node `id`, which was waiting, leaves every other node of
/// the first `ns.len()` as it was: what any of them spells out changes only
/// where `id` stood.
pub proof fn lemma_local(
    ns: Seq<NodeView>,
    s: Set<int>,
    ns2: Seq<NodeView>,
    s_next: Set<int>,
    id: int,
    x: int,
)
    requires
        0 <= id < ns.len() <= ns2.len(),
        s.contains(id),
        arena_ok(ns),
        forall|y: int| 0 <= y < ns.len() && y != id ==> ns2[y] == ns[y],
        forall|y: int| 0 <= y < ns.len() && y != id ==> (s_next.contains(y) <==> s.contains(y)),
    ensures
        yield_of(ns2, s_next, x) == subst(yield_of(ns, s, x), id, yield_of(ns2, s_next, id)) || x < 0 || x
            >= ns.len(),
    decreases ns.len() - x, ns[x].children.len() + 1,
{
    if 0 <= x < ns.len() {
        let zs = yield_of(ns2, s_next, id);
        if x == id {
            assert(subst(seq![Item::Pending(id)], id, zs) =~= zs) by {
                let one = seq![Item::Pending(id)];
                assert(one.drop_last() =~= Seq::<Item>::empty());
                assert(one.last() == Item::Pending(id));
                assert(subst(Seq::<Item>::empty(), id, zs) == Seq::<Item>::empty());
                assert(subst(one, id, zs) == subst(one.drop_last(), id, zs) + zs);
                assert(Seq::<Item>::empty() + zs =~= zs);
            }
        } else if s.contains(x) || ns[x].leaf {
            let ys = yield_of(ns, s, x);
            assert(ys.len() == 1);
            assert(!ys.contains(Item::Pending(id))) by {
                if ys.contains(Item::Pending(id)) {
                    let k = choose|k: int| 0 <= k < ys.len() && ys[k] == Item::Pending(id);
                    assert(k == 0);
                }
            }
            lemma_subst_absent(ys, id, zs);
        } else {
            lemma_local_kids(ns, s, ns2, s_next, id, x, ns[x].children.len() as int);
        }
    }
}

pub proof fn lemma_local_kids(
    ns: Seq<NodeView>,
    s: Set<int>,
    ns2: Seq<NodeView>,
    s_next: Set<int>,
    id: int,
    x: int,
    k: int,
)
    requires
        0 <= id < ns.len() <= ns2.len(),
        s.contains(id),
        arena_ok(ns),
        forall|y: int| 0 <= y < ns.len() && y != id ==> ns2[y] == ns[y],
        forall|y: int| 0 <= y < ns.len() && y != id ==> (s_next.contains(y) <==> s.contains(y)),
        0 <= x < ns.len(),
        x != id,
        k <= ns[x].children.len(),
    ensures
        yield_kids(ns2, s_next, x, k) == subst(yield_kids(ns, s, x, k), id, yield_of(ns2, s_next, id)),
    decreases ns.len() - x, k,
{
    let zs = yield_of(ns2, s_next, id);
    if k <= 0 {
        assert(subst(Seq::empty(), id, zs) =~= Seq::<Item>::empty());
    } else {
        lemma_local_kids(ns, s, ns2, s_next, id, x, k - 1);
        let c = ns[x].children[k - 1];
        assert(x < c < ns.len());
        lemma_local(ns, s, ns2, s_next, id, c);
        lemma_subst_concat(yield_kids(ns, s, x, k - 1), yield_of(ns, s, c), id, zs);
    }
}

/// A sequence of pending nodes for a stack, top first, its bottom left out.
pub open spec fn pend(st: Seq<int>) -> Seq<Item>
    decreases st.len(),
{
    if st.len() <= 1 {
        Seq::empty()
    } else {
        seq![Item::Pending(st.last())] + pend(st.drop_last())
    }
}

/// The nodes on a stack above its bottom.
pub open spec fn pending_set(st: Seq<int>) -> Set<int> {
    Set::new(|y: int| exists|i: int| 1 <= i < st.len() && st[i] == y)
}

/// Each token as a leaf.
pub open spec fn dones(toks: Seq<crate::tokenizer::TokenView>) -> Seq<Item> {
    toks.map_values(|t: crate::tokenizer::TokenView| Item::Done(t.name, t.value))
}

/// The grammar shape under which the leaves of an accepted tree are the
/// tokens: the first production is the root one, `__ROOT -> S $`, with `S`
/// another name; no other alternative has the terminal `$` or names the
/// root production; and no pattern is named `$`.
pub open spec fn rooted(p: ParserView) -> bool {
    let g = p.grammar;
    &&& p.wf()
    &&& g.heads.len() > 0
    &&& g.bodies[0].len() == 1
    &&& g.bodies[0][0].len() == 2
    &&& g.bodies[0][0][0] is Nonterm
    &&& g.bodies[0][0][0]->Nonterm_0 != g.heads[0]
    &&& g.bodies[0][0][1] == Sym::Term(eof_name())
    &&& forall|h: int, j: int, k: int|
        1 <= h < g.bodies.len() && 0 <= j < g.bodies[h].len() && 0 <= k < g.bodies[h][j].len()
            ==> #[trigger] g.bodies[h][j][k] != Sym::Term(eof_name()) && g.bodies[h][j][k]
            != Sym::Nonterm(g.heads[0])
    &&& forall|i: int| 0 <= i < p.patterns.len() ==> (#[trigger] p.patterns[i]).name != eof_name()
}

/// The machine after its first step, while it runs: the root node has the
/// start node and the end leaf as children, the end leaf waits just above
/// the bottom of the stack, and what the root spells out is the tokens
/// matched so far, then the waiting nodes from the top of the stack down.
pub open spec fn machine_ok(p: ParserView, toks: Seq<TokenView>, m: Machine) -> bool {
    let ns = m.nodes;
    let st = m.stack;
    &&& arena_ok(ns)
    &&& ns.len() >= 4
    &&& ns[0].leaf && ns[0].name == eof_name()
    &&& !ns[1].leaf && ns[1].children == seq![2int, 3int]
    &&& ns[3].leaf && ns[3].name == eof_name()
    &&& st.len() >= 2 && st[0] == 0 && st[1] == 3
    &&& st.no_duplicates()
    &&& forall|i: int| 0 <= i < st.len() ==> #[trigger] st[i] < ns.len() && st[i] != 1 && 0 <= st[i]
    &&& forall|y: int|
        #[trigger] pending_set(st).contains(y) && !ns[y].leaf ==> ns[y].children.len() == 0
    &&& forall|y: int|
        0 <= y < ns.len() && (#[trigger] ns[y]).leaf && ns[y].name == eof_name() ==> y == 0 || y
            == 3
    &&& forall|y: int|
        2 <= y < ns.len() && !(#[trigger] ns[y]).leaf ==> ns[y].name != p.grammar.heads[0]
    &&& 0 <= m.cursor <= toks.len()
    &&& yield_of(ns, pending_set(st), 1) == dones(toks.take(m.cursor)) + pend(st)
}

proof fn lemma_pend_push(st: Seq<int>, y: int)
    requires
        st.len() >= 1,
    ensures
        pend(st.push(y)) == seq![Item::Pending(y)] + pend(st),
{
    assert(st.push(y).drop_last() =~= st);
}

proof fn lemma_pend_fresh(rest: Seq<int>, base: int, n: int)
    requires
        rest.len() >= 1,
        0 <= n,
    ensures
        pend(rest + Seq::new(n as nat, |k: int| base + n - 1 - k)) == Seq::new(
            n as nat,
            |q: int| Item::Pending(base + q),
        ) + pend(rest),
    decreases n,
{
    if n > 0 {
        let top = Seq::new(n as nat, |k: int| base + n - 1 - k);
        let lower = Seq::new((n - 1) as nat, |k: int| (base + 1) + (n - 1) - 1 - k);
        assert(rest + top =~= (rest + lower).push(base));
        lemma_pend_push(rest + lower, base);
        lemma_pend_fresh(rest, base + 1, n - 1);
        assert(seq![Item::Pending(base)] + (Seq::new((n - 1) as nat, |q: int| Item::Pending((base + 1) + q))
            + pend(rest)) =~= Seq::new(n as nat, |q: int| Item::Pending(base + q)) + pend(rest));
    } else {
        assert(rest + Seq::new(n as nat, |k: int| base + n - 1 - k) =~= rest);
        assert(Seq::new(n as nat, |q: int| Item::Pending(base + q)) + pend(rest) =~= pend(rest));
    }
}

proof fn lemma_dones_absent(toks: Seq<TokenView>, id: int, zs: Seq<Item>)
    ensures
        subst(dones(toks), id, zs) == dones(toks),
{
    assert(!dones(toks).contains(Item::Pending(id))) by {
        if dones(toks).contains(Item::Pending(id)) {
            let k = choose|k: int| 0 <= k < dones(toks).len() && dones(toks)[k] == Item::Pending(id);
        }
    }
    lemma_subst_absent(dones(toks), id, zs);
}

proof fn lemma_pend_absent(st: Seq<int>, id: int, zs: Seq<Item>)
    requires
        forall|i: int| 1 <= i < st.len() ==> st[i] != id,
    ensures
        subst(pend(st), id, zs) == pend(st),
    decreases st.len(),
{
    assert(!pend(st).contains(Item::Pending(id))) by {
        lemma_pend_items(st);
        if pend(st).contains(Item::Pending(id)) {
            let k = choose|k: int| 0 <= k < pend(st).len() && pend(st)[k] == Item::Pending(id);
        }
    }
    lemma_subst_absent(pend(st), id, zs);
}

proof fn lemma_pend_items(st: Seq<int>)
    ensures
        forall|k: int|
            0 <= k < pend(st).len() ==> exists|i: int|
                1 <= i < st.len() && #[trigger] pend(st)[k] == Item::Pending(st[i]),
    decreases st.len(),
{
    if st.len() > 1 {
        lemma_pend_items(st.drop_last());
        assert forall|k: int| 0 <= k < pend(st).len() implies exists|i: int|
            1 <= i < st.len() && #[trigger] pend(st)[k] == Item::Pending(st[i]) by {
            if k == 0 {
                assert(pend(st)[0] == Item::Pending(st[st.len() - 1]));
            } else {
                assert(pend(st)[k] == pend(st.drop_last())[k - 1]);
                let i = choose|i: int|
                    1 <= i < st.drop_last().len() && #[trigger] pend(st.drop_last())[k - 1] == Item::Pending(
                        st.drop_last()[i],
                    );
                assert(st[i] == st.drop_last()[i]);
            }
        }
    }
}

/// The fresh children of an expanded node all wait on the stack.
proof fn lemma_fresh_kids(ns2: Seq<NodeView>, s_next: Set<int>, id: int, base: int, n: int, k: int)
    requires
        0 <= id < base,
        base + n <= ns2.len(),
        0 <= k <= n,
        ns2[id].children == Seq::new(n as nat, |q: int| base + q),
        forall|c: int| base <= c < base + n ==> #[trigger] s_next.contains(c),
    ensures
        yield_kids(ns2, s_next, id, k) == Seq::new(k as nat, |q: int| Item::Pending(base + q)),
    decreases k,
{
    if k > 0 {
        lemma_fresh_kids(ns2, s_next, id, base, n, k - 1);
        let c = ns2[id].children[k - 1];
        assert(c == base + k - 1);
        assert(s_next.contains(c));
        assert(yield_of(ns2, s_next, c) == seq![Item::Pending(c)]);
        assert(Seq::new((k - 1) as nat, |q: int| Item::Pending(base + q)) + seq![Item::Pending(c)]
            =~= Seq::new(k as nat, |q: int| Item::Pending(base + q)));
    } else {
        assert(Seq::new(0, |q: int| Item::Pending(base + q)) =~= Seq::<Item>::empty());
    }
}

proof fn lemma_pop_set(st: Seq<int>, y: int)
    requires
        st.len() >= 2,
        st.no_duplicates(),
    ensures
        pending_set(st.drop_last()).contains(y) <==> pending_set(st).contains(y) && y != st.last(),
{
    if pending_set(st).contains(y) && y != st.last() {
        let i = choose|i: int| 1 <= i < st.len() && st[i] == y;
        assert(st.drop_last()[i] == y);
    }
    if pending_set(st.drop_last()).contains(y) {
        let i = choose|i: int| 1 <= i < st.drop_last().len() && st.drop_last()[i] == y;
        assert(st[i] == y);
    }
}

/// Popping a waiting node and putting `zs` where it stood.
proof fn lemma_replace_top(
    toks: Seq<TokenView>,
    c: int,
    st: Seq<int>,
    ns: Seq<NodeView>,
    ns2: Seq<NodeView>,
    s_next: Set<int>,
)
    requires
        st.len() >= 2,
        st.no_duplicates(),
        0 <= st.last() < ns.len() <= ns2.len(),
        arena_ok(ns),
        1 < ns.len(),
        forall|y: int| 0 <= y < ns.len() && y != st.last() ==> ns2[y] == ns[y],
        forall|y: int|
            0 <= y < ns.len() && y != st.last() ==> (s_next.contains(y) <==> pending_set(st).contains(y)),
        yield_of(ns, pending_set(st), 1) == dones(toks.take(c)) + pend(st),
    ensures
        yield_of(ns2, s_next, 1) == dones(toks.take(c)) + yield_of(ns2, s_next, st.last()) + pend(
            st.drop_last(),
        ),
{
    let id = st.last();
    let zs = yield_of(ns2, s_next, id);
    assert(pending_set(st).contains(id)) by {
        assert(st[st.len() - 1] == id);
    }
    lemma_local(ns, pending_set(st), ns2, s_next, id, 1);
    assert(pend(st) == seq![Item::Pending(id)] + pend(st.drop_last()));
    let pre = dones(toks.take(c));
    let one = seq![Item::Pending(id)];
    let rest = pend(st.drop_last());
    assert(pre + pend(st) =~= pre + one + rest);
    lemma_subst_concat(pre + one, rest, id, zs);
    lemma_subst_concat(pre, one, id, zs);
    lemma_dones_absent(toks.take(c), id, zs);
    assert forall|i: int| 1 <= i < st.drop_last().len() implies st.drop_last()[i] != id by {
        assert(st.drop_last()[i] == st[i]);
    }
    lemma_pend_absent(st.drop_last(), id, zs);
    assert(one.drop_last() =~= Seq::<Item>::empty());
    assert(subst(one, id, zs) == subst(one.drop_last(), id, zs) + zs);
    assert(subst(Seq::<Item>::empty(), id, zs) == Seq::<Item>::empty());
    assert(subst(one, id, zs) =~= zs);
}

/// A step keeps the machine in shape, or accepts with the tokens as the
/// leaves of the tree.
proof fn lemma_step(p: ParserView, toks: Seq<TokenView>, m: Machine)
    requires
        rooted(p),
        machine_ok(p, toks, m),
        forall|i: int| 0 <= i < toks.len() ==> (#[trigger] toks[i]).name != eof_name(),
    ensures
        match step(p, toks, m) {
            Outcome::Running(m2) => machine_ok(p, toks, m2),
            Outcome::Accepted(m2) => yield_of(m2.nodes, Set::empty(), tree_root(m2.nodes)) == dones(
                toks,
            ),
            Outcome::Rejected(_) => true,
        },
{
    let ns = m.nodes;
    let st = m.stack;
    let c = m.cursor;
    let la = lookahead(toks, c);
    let id = st.last();
    let rest = st.drop_last();
    let node = ns[id];
    let g = p.grammar;
    assert(st[st.len() - 1] == id);
    assert(0 <= id < ns.len());
    assert(id != 1);
    assert forall|y: int| #[trigger] pending_set(rest).contains(y) <==> pending_set(st).contains(y) && y != id by {
        lemma_pop_set(st, y);
    }
    assert(pending_set(st).contains(id));
    assert(rest.no_duplicates());
    if id == 3 {
        assert(st.len() == 2) by {
            if st.len() > 2 {
                assert(st[1] == st[st.len() - 1]);
            }
        }
    }
    if st.len() > 2 {
        assert(id != 3) by {
            assert(st[1] == 3);
            assert(st[st.len() - 1] != st[1]);
        }
    }
    if id == 0 {
        assert(st[0] == st[st.len() - 1]);
    }
    if !node.leaf {
        if g.heads.contains(node.name) {
            let h = g.index_of(node.name);
            assert(0 <= h < g.heads.len() && g.heads[h] == node.name);
            assert(h != 0);
            match p.table[h].get(la) {
                None => {},
                Some(j) => {
                    assert(p.table[h].keys.contains(la));
                    let q = p.table[h].keys.index_of(la);
                    assert(0 <= q < p.table[h].keys.len());
                    assert(crate::table::alts_below(p.table[h], g.bodies[h].len() as int));
                    assert(0 <= j < g.bodies[h].len());
                    let alt = g.bodies[h][j];
                    assert(pending_set(st).contains(id) && !ns[id].leaf);
                    assert(ns[id].children.len() == 0);
                    if is_epsilon_alt(alt) {
                        let m2 = Machine { stack: rest, ..m };
                        lemma_replace_top(toks, c, st, ns, ns, pending_set(rest));
                        assert(yield_of(ns, pending_set(rest), id) =~= Seq::<Item>::empty());
                        assert(dones(toks.take(c)) + Seq::<Item>::empty() =~= dones(toks.take(c)));
                        assert(machine_ok(p, toks, m2));
                    } else {
                        let base = ns.len() as int;
                        let n = alt.len() as int;
                        let kids = Seq::new(n as nat, |k: int| base + k);
                        let fresh = Seq::new(n as nat, |k: int| node_for(alt[k]));
                        let ns2 = (ns + fresh).update(id, NodeView { children: kids, ..node });
                        let st2 = rest + Seq::new(n as nat, |k: int| base + n - 1 - k);
                        let m2 = Machine { nodes: ns2, stack: st2, cursor: c };
                        assert(step(p, toks, m) == Outcome::Running(m2));
                        let s_next = pending_set(st2);
                        assert forall|y: int| #[trigger] s_next.contains(y) <==> pending_set(rest).contains(y) || (base <= y < base + n) by {
                            if s_next.contains(y) {
                                let i = choose|i: int| 1 <= i < st2.len() && st2[i] == y;
                                if i < rest.len() {
                                    assert(st2[i] == rest[i]);
                                } else {
                                    assert(st2[i] == base + n - 1 - (i - rest.len()));
                                }
                            }
                            if pending_set(rest).contains(y) {
                                let i = choose|i: int| 1 <= i < rest.len() && rest[i] == y;
                                assert(st2[i] == y);
                            }
                            if base <= y < base + n {
                                let i = rest.len() + (base + n - 1 - y);
                                assert(st2[i] == y);
                            }
                        }
                        assert forall|y: int| 0 <= y < ns.len() && y != id implies ns2[y] == ns[y] by {}
                        lemma_replace_top(toks, c, st, ns, ns2, s_next);
                        assert(ns2[id].children == kids);
                        assert(!ns2[id].leaf);
                        assert(!s_next.contains(id));
                        lemma_fresh_kids(ns2, s_next, id, base, n, n);
                        lemma_pend_fresh(rest, base, n);
                        assert(dones(toks.take(c)) + Seq::new(n as nat, |q: int| Item::Pending(base + q)) + pend(rest)
                            =~= dones(toks.take(c)) + (Seq::new(n as nat, |q: int| Item::Pending(base + q)) + pend(rest)));
                        // the shape of the new nodes
                        assert forall|y: int, k: int|
                            0 <= y < ns2.len() && 0 <= k < ns2[y].children.len() implies y < #[trigger] ns2[y].children[k]
                                < ns2.len() by {
                            if y < base && y != id {
                                assert(ns2[y] == ns[y]);
                            } else if y >= base {
                                assert(ns2[y] == node_for(alt[y - base]));
                            }
                        }
                        assert forall|y: int| 0 <= y < ns2.len() && (#[trigger] ns2[y]).leaf implies ns2[y].children.len() == 0 by {
                            if y < base && y != id {
                                assert(ns2[y] == ns[y]);
                            } else if y >= base {
                                assert(ns2[y] == node_for(alt[y - base]));
                            }
                        }
                        assert forall|y: int|
                            0 <= y < ns2.len() && (#[trigger] ns2[y]).leaf && ns2[y].name == eof_name() implies y == 0 || y == 3 by {
                            if y < base && y != id {
                                assert(ns2[y] == ns[y]);
                            } else if y >= base {
                                assert(ns2[y] == node_for(alt[y - base]));
                                assert(alt[y - base] != Sym::Term(eof_name()));
                            }
                        }
                        assert forall|y: int|
                            2 <= y < ns2.len() && !(#[trigger] ns2[y]).leaf implies ns2[y].name != g.heads[0] by {
                            if y < base && y != id {
                                assert(ns2[y] == ns[y]);
                            } else if y >= base {
                                assert(ns2[y] == node_for(alt[y - base]));
                                assert(alt[y - base] != Sym::Nonterm(g.heads[0]));
                            }
                        }
                        assert forall|y: int| #[trigger] s_next.contains(y) && !ns2[y].leaf implies ns2[y].children.len() == 0 by {
                            if y < base {
                                assert(y != id);
                                assert(ns2[y] == ns[y]);
                            } else {
                                assert(ns2[y] == node_for(alt[y - base]));
                            }
                        }
                        assert(st2.no_duplicates()) by {
                            assert forall|i: int, k: int| 0 <= i < k < st2.len() implies st2[i] != st2[k] by {
                                if k >= rest.len() {
                                    assert(st2[k] >= base);
                                    if i < rest.len() {
                                        assert(st2[i] == st[i]);
                                    }
                                } else {
                                    assert(st2[i] == st[i] && st2[k] == st[k]);
                                }
                            }
                        }
                        assert forall|i: int| 0 <= i < st2.len() implies #[trigger] st2[i] < ns2.len() && st2[i] != 1 && 0 <= st2[i] by {
                            if i < rest.len() {
                                assert(st2[i] == st[i]);
                            }
                        }
                        assert(st2[0] == 0 && st2[1] == 3);
                        assert(ns2[1] == ns[1] && ns2[0] == ns[0] && ns2[3] == ns[3]);
                        assert(machine_ok(p, toks, m2));
                    }
                },
            }
        }
    } else if node.name != la {
    } else if node.name == eof_name() {
        assert(id == 3);
        assert(c == toks.len()) by {
            if c < toks.len() {
                assert(toks[c].name != eof_name());
            }
        }
        assert(toks.take(c) =~= toks);
        assert(rest =~= seq![0int]);
        assert(pend(rest) == Seq::<Item>::empty());
        assert(pend(st) == seq![Item::Pending(3)] + pend(rest));
        let s = pending_set(st);
        assert(s.contains(3));
        assert(yield_of(ns, s, 3) == seq![Item::Pending(3)]);
        assert(ns[1].children[0] == 2 && ns[1].children[1] == 3);
        assert(yield_kids(ns, s, 1, 0) == Seq::<Item>::empty());
        assert(yield_kids(ns, s, 1, 2) == yield_kids(ns, s, 1, 1) + yield_of(ns, s, 3));
        assert(yield_kids(ns, s, 1, 1) == yield_kids(ns, s, 1, 0) + yield_of(ns, s, 2));
        assert(!s.contains(1)) by {
            if s.contains(1) {
                let i = choose|i: int| 1 <= i < st.len() && st[i] == 1;
            }
        }
        assert(yield_of(ns, s, 1) == yield_kids(ns, s, 1, 2));
        assert(yield_of(ns, s, 2) + seq![Item::Pending(3)] == dones(toks) + seq![Item::Pending(3)]) by {
            assert(Seq::<Item>::empty() + yield_of(ns, s, 2) =~= yield_of(ns, s, 2));
            assert(dones(toks) + (seq![Item::Pending(3)] + Seq::<Item>::empty()) =~= dones(toks) + seq![Item::Pending(3)]);
        }
        assert(yield_of(ns, s, 2) =~= dones(toks)) by {
            let a = yield_of(ns, s, 2) + seq![Item::Pending(3)];
            assert(a.drop_last() =~= yield_of(ns, s, 2));
            assert((dones(toks) + seq![Item::Pending(3)]).drop_last() =~= dones(toks));
        }
        assert forall|y: int| 0 <= y < ns.len() && y != 3 implies (Set::<int>::empty().contains(y) <==> s.contains(y)) by {
            if s.contains(y) {
                let i = choose|i: int| 1 <= i < st.len() && st[i] == y;
                assert(i == 1);
            }
        }
        lemma_local(ns, s, ns, Set::empty(), 3, 2);
        lemma_dones_absent(toks, 3, yield_of(ns, Set::empty(), 3));
        assert(tree_root(ns) == 2);
    } else {
        assert(c < toks.len());
        let v = toks[c].value;
        let ns2 = ns.update(id, NodeView { value: v, ..node });
        let m2 = Machine { nodes: ns2, stack: rest, cursor: c + 1 };
        assert(step(p, toks, m) == Outcome::Running(m2));
        lemma_replace_top(toks, c, st, ns, ns2, pending_set(rest));
        assert(yield_of(ns2, pending_set(rest), id) == seq![Item::Done(toks[c].name, v)]);
        assert(dones(toks.take(c + 1)) =~= dones(toks.take(c)) + seq![Item::Done(toks[c].name, v)]);
        assert(id != 3);
        assert forall|y: int| 0 <= y < ns2.len() && (#[trigger] ns2[y]).leaf implies ns2[y].children.len() == 0 by {
            if y != id {
                assert(ns2[y] == ns[y]);
            }
        }
        assert forall|y: int, k: int|
            0 <= y < ns2.len() && 0 <= k < ns2[y].children.len() implies y < #[trigger] ns2[y].children[k]
                < ns2.len() by {
            assert(ns2[y].children == ns[y].children);
        }
        assert forall|y: int| 0 <= y < ns2.len() && (#[trigger] ns2[y]).leaf && ns2[y].name == eof_name() implies y == 0 || y == 3 by {
            assert(ns2[y].name == ns[y].name && ns2[y].leaf == ns[y].leaf);
        }
        assert forall|y: int| 2 <= y < ns2.len() && !(#[trigger] ns2[y]).leaf implies ns2[y].name != g.heads[0] by {
            assert(ns2[y].name == ns[y].name && ns2[y].leaf == ns[y].leaf);
        }
        assert forall|y: int| #[trigger] pending_set(rest).contains(y) && !ns2[y].leaf implies ns2[y].children.len() == 0 by {
            assert(ns2[y].children == ns[y].children && ns2[y].leaf == ns[y].leaf);
        }
        assert forall|i: int| 0 <= i < rest.len() implies #[trigger] rest[i] < ns2.len() && rest[i] != 1 && 0 <= rest[i] by {
            assert(rest[i] == st[i]);
        }
        assert(machine_ok(p, toks, m2));
    }
}

proof fn lemma_run(p: ParserView, toks: Seq<TokenView>, m: Machine, fuel: nat)
    requires
        rooted(p),
        machine_ok(p, toks, m),
        forall|i: int| 0 <= i < toks.len() ==> (#[trigger] toks[i]).name != eof_name(),
    ensures
        run(p, toks, m, fuel) matches Outcome::Accepted(m2) ==> yield_of(
            m2.nodes,
            Set::empty(),
            tree_root(m2.nodes),
        ) == dones(toks),
    decreases fuel,
{
    if fuel > 0 {
        lemma_step(p, toks, m);
        if let Outcome::Running(m2) = step(p, toks, m) {
            lemma_run(p, toks, m2, (fuel - 1) as nat);
        }
    }
}

/// The first step expands the root node into the start node and the end leaf.
proof fn lemma_first_step(p: ParserView, toks: Seq<TokenView>)
    requires
        rooted(p),
    ensures
        step(p, toks, start(p)) matches Outcome::Running(m1) ==> machine_ok(p, toks, m1),
        !(step(p, toks, start(p)) is Accepted),
{
    let g = p.grammar;
    let m = start(p);
    let la = lookahead(toks, 0);
    assert(m.stack.last() == 1);
    assert(m.nodes[1].name == g.heads[0]);
    assert(g.heads.contains(g.heads[0]));
    let h = g.index_of(g.heads[0]);
    assert(h == 0) by {
        assert(g.heads[h] == g.heads[0]);
    }
    if let Some(j) = p.table[0].get(la) {
        assert(p.table[0].keys.contains(la));
        let q = p.table[0].keys.index_of(la);
        assert(0 <= q < p.table[0].keys.len());
        assert(crate::table::alts_below(p.table[0], g.bodies[0].len() as int));
        assert(j == 0);
        let alt = g.bodies[0][0];
        assert(!is_epsilon_alt(alt));
        let s = alt[0]->Nonterm_0;
        let ns = (m.nodes + Seq::new(2, |k: int| node_for(alt[k]))).update(
            1,
            NodeView { children: Seq::new(2, |k: int| 2 + k), ..m.nodes[1] },
        );
        let st = m.stack.drop_last() + Seq::new(2, |k: int| 2 + 2 - 1 - k);
        let m1 = Machine { nodes: ns, stack: st, cursor: 0 };
        assert(step(p, toks, m) == Outcome::Running(m1));
        assert(ns[1].children =~= seq![2int, 3int]);
        assert(ns[2] == node_for(alt[0]));
        assert(ns[3] == node_for(alt[1]));
        assert(st =~= seq![0int, 3int, 2int]);
        let ps = pending_set(st);
        assert forall|y: int| #[trigger] ps.contains(y) <==> y == 2 || y == 3 by {
            if y == 3 {
                assert(st[1] == 3);
            }
            if y == 2 {
                assert(st[2] == 2);
            }
        }
        assert(!ps.contains(1));
        assert(yield_of(ns, ps, 2) == seq![Item::Pending(2)]);
        assert(yield_of(ns, ps, 3) == seq![Item::Pending(3)]);
        assert(yield_kids(ns, ps, 1, 0) == Seq::<Item>::empty());
        assert(yield_kids(ns, ps, 1, 1) =~= seq![Item::Pending(2)]);
        assert(yield_kids(ns, ps, 1, 2) =~= seq![Item::Pending(2), Item::Pending(3)]);
        assert(pend(seq![0int]) == Seq::<Item>::empty());
        assert(seq![0int, 3int, 2int].drop_last() =~= seq![0int, 3int]);
        assert(seq![0int, 3int].drop_last() =~= seq![0int]);
        assert(seq![0int, 3int, 2int].last() == 2);
        assert(seq![0int, 3int].last() == 3);
        assert(pend(seq![0int, 3int]) == seq![Item::Pending(3)] + pend(seq![0int]));
        assert(pend(seq![0int, 3int, 2int]) == seq![Item::Pending(2)] + pend(seq![0int, 3int]));
        assert(pend(st) =~= seq![Item::Pending(2), Item::Pending(3)]);
        assert(dones(toks.take(0)) =~= Seq::<Item>::empty());
        assert(dones(toks.take(0)) + pend(st) =~= pend(st));
        assert forall|y: int, k: int|
            0 <= y < ns.len() && 0 <= k < ns[y].children.len() implies y < #[trigger] ns[y].children[k]
                < ns.len() by {
            if y != 1 {
                assert(ns[y].children.len() == 0);
            }
        }
        assert(machine_ok(p, toks, m1));
    }
}

proof fn lemma_first_accepting_bounds(ps: Seq<PatternView>, s: Seq<char>, k: int)
    requires
        0 <= k,
    ensures
        first_accepting(ps, s, k) matches Some(r) ==> k <= r < ps.len(),
    decreases ps.len() - k,
{
    if k < ps.len() {
        lemma_first_accepting_bounds(ps, s, k + 1);
    }
}

proof fn lemma_token_names(ps: Seq<PatternView>, st: LexState, atoms: Seq<(Seq<char>, int, int)>)
    requires
        forall|i: int| 0 <= i < ps.len() ==> (#[trigger] ps[i]).name != eof_name(),
        forall|i: int| 0 <= i < st.tokens.len() ==> (#[trigger] st.tokens[i]).name != eof_name(),
    ensures
        forall|i: int|
            0 <= i < lex_run(ps, st, atoms).tokens.len() ==> (#[trigger] lex_run(
                ps,
                st,
                atoms,
            ).tokens[i]).name != eof_name(),
    decreases atoms.len(),
{
    if atoms.len() > 0 {
        let a = atoms[0];
        let cur = match st.lookup {
            Some(b) => (b.0 + a.0, b.1, b.2),
            None => a,
        };
        lemma_first_accepting_bounds(ps, cur.0, 0);
        let st2 = lex_step(ps, st, a);
        assert forall|i: int| 0 <= i < st2.tokens.len() implies (#[trigger] st2.tokens[i]).name != eof_name() by {
            if i < st.tokens.len() {
                assert(st2.tokens[i] == st.tokens[i]);
            }
        }
        lemma_token_names(ps, st2, atoms.drop_first());
    }
}

/// In the tree that a successful parse gives, the leaves from left to right
/// are the tokens of the input, name and text each; the `$` that ends the
/// input is not among them. Grammars outside the shape that `rooted`
/// describes (a production named `__ROOT`, a pattern named `$`) are left out.
pub proof fn lemma_leaves_are_tokens(p: ParserView, text: Seq<char>)
    requires
        rooted(p),
        parse_result(p, text) is Ok,
    ensures
        tokenize(p.patterns, text) is Ok,
        yield_of(parse_result(p, text)->Ok_0, Set::empty(), tree_root(parse_result(p, text)->Ok_0))
            == dones(tokenize(p.patterns, text)->Ok_0),
{
    let toks = tokenize(p.patterns, text)->Ok_0;
    let st = lex_run(p.patterns, lex_start(), crate::tokenizer::atom_views(text));
    lemma_token_names(p.patterns, lex_start(), crate::tokenizer::atom_views(text));
    let fuel = crate::parser::step_budget(toks.len());
    assert(fuel > 0);
    lemma_first_step(p, toks);
    if let Outcome::Running(m1) = step(p, toks, start(p)) {
        lemma_run(p, toks, m1, (fuel - 1) as nat);
    }
}

/// No alternative on the lines of `t` names the root production.
pub open spec fn root_unnamed(t: Seq<char>, ps: Seq<PatternView>) -> bool {
    forall|k: int|
        0 <= k < crate::text::line_ranges(t, 0).len() ==> #[trigger] line_ok(
            t,
            ps,
            crate::text::line_ranges(t, 0)[k],
        )
}

/// A line that is a production neither is named `__ROOT` nor has it among
/// its symbols.
pub open spec fn line_ok(t: Seq<char>, ps: Seq<PatternView>, l: (int, int)) -> bool {
    line_arrow(t, l) < l.1 ==> {
        &&& line_head(t, l) != root_name()
        &&& forall|j: int, k: int|
            0 <= j < line_alts(t, ps, l).len() && 0 <= k < line_alts(t, ps, l)[j].len()
                ==> #[trigger] line_alts(t, ps, l)[j][k] != Sym::Nonterm(root_name())
    }
}

/// What the loader keeps true: the root production comes first, as it was
/// made, and the others neither have `$` nor name the root.
pub open spec fn loaded_shape(g: GrammarView) -> bool {
    &&& g.wf()
    &&& g.heads.len() > 0 ==> {
        &&& g.heads[0] == root_name()
        &&& g.bodies[0].len() == 1
        &&& g.bodies[0][0].len() == 2
        &&& g.bodies[0][0][0] is Nonterm
        &&& g.bodies[0][0][0]->Nonterm_0 != root_name()
        &&& g.bodies[0][0][1] == Sym::Term(eof_name())
    }
    &&& forall|h: int, j: int, k: int|
        1 <= h < g.bodies.len() && 0 <= j < g.bodies[h].len() && 0 <= k < g.bodies[h][j].len()
            ==> #[trigger] g.bodies[h][j][k] != Sym::Term(eof_name()) && g.bodies[h][j][k]
            != Sym::Nonterm(root_name())
}

proof fn lemma_loaded_shape(
    t: Seq<char>,
    ps: Seq<PatternView>,
    lines: Seq<(int, int)>,
    g: GrammarView,
)
    requires
        loaded_shape(g),
        forall|i: int| 0 <= i < ps.len() ==> (#[trigger] ps[i]).name != eof_name(),
        forall|k: int| 0 <= k < lines.len() ==> #[trigger] line_ok(t, ps, lines[k]),
    ensures
        loaded_shape(load_grammar(t, ps, lines, g)),
    decreases lines.len(),
{
    if lines.len() > 0 {
        let l = lines[0];
        assert(line_ok(t, ps, l));
        assert forall|k: int| 0 <= k < lines.drop_first().len() implies #[trigger] line_ok(
            t,
            ps,
            lines.drop_first()[k],
        ) by {
            assert(lines.drop_first()[k] == lines[k + 1]);
        }
        if line_arrow(t, l) < l.1 {
            let head = line_head(t, l);
            let alts = line_alts(t, ps, l);
            let g1 = if g.heads.len() == 0 {
                g.define(root_name(), root_alts(head))
            } else {
                g
            };
            assert(loaded_shape(g1)) by {
                if g.heads.len() == 0 {
                    assert(g1.heads =~= seq![root_name()]);
                    assert(g1.bodies =~= seq![root_alts(head)]);
                }
            }
            assert forall|j: int, k: int| 0 <= j < alts.len() && 0 <= k < alts[j].len() implies
                #[trigger] alts[j][k] != Sym::Term(eof_name()) by {
                let parts = crate::text::split_ranges(t, '|', line_arrow(t, l) + 2, l.1);
                assert(alts[j] == crate::grammar::alt_of(t, ps, parts[j]));
                let w = crate::text::word_ranges(t, parts[j].0, parts[j].1)[k];
                assert(alts[j][k] == crate::grammar::sym_of(ps, t.subrange(w.0, w.1)));
            }
            let g2 = g1.define(head, alts);
            assert(g1.heads.len() > 0);
            assert(loaded_shape(g2)) by {
                if g1.heads.contains(head) {
                    let x = g1.heads.index_of(head);
                    assert(x != 0);
                    assert forall|h: int, j: int, k: int|
                        1 <= h < g2.bodies.len() && 0 <= j < g2.bodies[h].len() && 0 <= k
                            < g2.bodies[h][j].len() implies #[trigger] g2.bodies[h][j][k] != Sym::Term(
                        eof_name(),
                    ) && g2.bodies[h][j][k] != Sym::Nonterm(root_name()) by {
                        if h != x {
                            assert(g2.bodies[h] == g1.bodies[h]);
                        }
                    }
                } else {
                    assert forall|h: int, j: int, k: int|
                        1 <= h < g2.bodies.len() && 0 <= j < g2.bodies[h].len() && 0 <= k
                            < g2.bodies[h][j].len() implies #[trigger] g2.bodies[h][j][k] != Sym::Term(
                        eof_name(),
                    ) && g2.bodies[h][j][k] != Sym::Nonterm(root_name()) by {
                        if h < g1.bodies.len() {
                            assert(g2.bodies[h] == g1.bodies[h]);
                        }
                    }
                    assert(g2.heads.no_duplicates()) by {
                        assert forall|i: int, k: int| 0 <= i < k < g2.heads.len() implies g2.heads[i]
                            != g2.heads[k] by {
                            if k == g1.heads.len() {
                                assert(g1.heads[i] != head);
                            }
                        }
                    }
                }
            }
            lemma_loaded_shape(t, ps, lines.drop_first(), g2);
        } else {
            lemma_loaded_shape(t, ps, lines.drop_first(), g);
        }
    }
}

/// A grammar loaded from `text` has the shape that `rooted` asks for, once
/// it has a production, where no pattern is named `$` and no line names
/// `__ROOT`; so the leaves of its trees are the tokens.
pub proof fn lemma_loaded_grammars_rooted(ps: Seq<PatternView>, text: Seq<char>)
    requires
        forall|i: int| 0 <= i < ps.len() ==> (#[trigger] ps[i]).name != eof_name(),
        root_unnamed(text, ps),
        compiled(ps, text).grammar.heads.len() > 0,
    ensures
        rooted(compiled(ps, text)),
{
    let g0 = GrammarView { heads: Seq::empty(), bodies: Seq::empty() };
    crate::laws::lemma_table_cells_unique(ps, text);
    lemma_loaded_shape(text, ps, crate::text::line_ranges(text, 0), g0);
}

} // verus!
