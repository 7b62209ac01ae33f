//! Productions: symbols, alternatives, and the grammar loader.
use crate::names::{insert_name, name_at, name_position, names_in, names_len, new_names};
use crate::text::{arrow, as_ints, chars_of, find_arrow, line_ranges, lines, piece, split, split_ranges, within, word_ranges, words};
use crate::tokenizer::{epsilon_name, pattern_views, same_text, Pattern, PatternView};
use indexmap::IndexSet;
use vstd::prelude::*;

verus! {

/// A symbol of an alternative: a terminal, named after a pattern, or a
/// nonterminal, named after a production.
#[derive(Debug)]
pub enum NodeType {
    Token { name: String },
    Grammar { name: String },
}

pub ghost enum Sym {
    Term(Seq<char>),
    Nonterm(Seq<char>),
}

impl View for NodeType {
    type V = Sym;

    open spec fn view(&self) -> Sym {
        match self {
            NodeType::Token { name } => Sym::Term(name@),
            NodeType::Grammar { name } => Sym::Nonterm(name@),
        }
    }
}

impl NodeType {
    pub fn name(&self) -> (r: &String)
        ensures
            r@ == match self@ {
                Sym::Term(n) => n,
                Sym::Nonterm(n) => n,
            },
    {
        match self {
            NodeType::Token { name } => name,
            NodeType::Grammar { name } => name,
        }
    }

    /// The symbol as it is written in a grammar: its name.
    pub fn to_text(&self) -> (r: String)
        ensures
            r@ == match self@ {
                Sym::Term(n) => n,
                Sym::Nonterm(n) => n,
            },
    {
        self.name().clone()
    }
}

pub open spec fn alt_view(a: Seq<NodeType>) -> Seq<Sym> {
    a.map_values(|s: NodeType| s@)
}

pub open spec fn alts_view(v: Seq<Vec<NodeType>>) -> Seq<Seq<Sym>> {
    v.map_values(|a: Vec<NodeType>| alt_view(a@))
}

/// The name of the synthetic start production.
pub open spec fn root_name() -> Seq<char> {
    seq!['_', '_', 'R', 'O', 'O', 'T']
}

/// The name of the end-of-input terminal.
pub open spec fn eof_name() -> Seq<char> {
    seq!['$']
}

/// Whether an alternative is the empty one, written `epsilon` alone.
pub open spec fn is_epsilon_alt(a: Seq<Sym>) -> bool {
    a.len() == 1 && a[0] == Sym::Term(epsilon_name())
}

/// Whether a production has the empty alternative.
pub open spec fn has_epsilon_alt(alts: Seq<Seq<Sym>>) -> bool {
    exists|j: int| 0 <= j < alts.len() && is_epsilon_alt(#[trigger] alts[j])
}

pub fn is_epsilon(variant: &Vec<NodeType>) -> (r: bool)
    ensures
        r == is_epsilon_alt(alt_view(variant@)),
{
    if variant.len() == 1 {
        match &variant[0] {
            NodeType::Token { name } => {
                let r = crate::tokenizer::is_epsilon_name(name.as_str());
                assert(r ==> alt_view(variant@)[0] == Sym::Term(epsilon_name()));
                r
            },
            NodeType::Grammar { .. } => false,
        }
    } else {
        false
    }
}

pub fn has_epsilon(variants: &Vec<Vec<NodeType>>) -> (r: bool)
    ensures
        r == has_epsilon_alt(alts_view(variants@)),
{
    let mut j: usize = 0;
    while j < variants.len()
        invariant
            j <= variants@.len(),
            forall|i: int| 0 <= i < j ==> !is_epsilon_alt(#[trigger] alts_view(variants@)[i]),
        decreases variants@.len() - j,
    {
        if is_epsilon(&variants[j]) {
            assert(is_epsilon_alt(alts_view(variants@)[j as int]));
            return true;
        }
        j = j + 1;
    }
    false
}

/// Productions in the order of their first declaration: the names of their
/// heads, and the alternatives of each at the same position.
#[derive(Debug)]
pub struct Grammars {
    heads: IndexSet<String>,
    bodies: Vec<Vec<Vec<NodeType>>>,
}

pub ghost struct GrammarView {
    pub heads: Seq<Seq<char>>,
    pub bodies: Seq<Seq<Seq<Sym>>>,
}

impl GrammarView {
    pub open spec fn wf(self) -> bool {
        &&& self.heads.len() == self.bodies.len()
        &&& self.heads.no_duplicates()
    }

    /// Defines `head` with `alts`: a head already there keeps its place and
    /// takes the new alternatives; a new one goes last.
    pub open spec fn define(self, head: Seq<char>, alts: Seq<Seq<Sym>>) -> GrammarView {
        if self.heads.contains(head) {
            GrammarView {
                heads: self.heads,
                bodies: self.bodies.update(self.heads.index_of(head), alts),
            }
        } else {
            GrammarView { heads: self.heads.push(head), bodies: self.bodies.push(alts) }
        }
    }

    /// The position of the production named `n`.
    pub open spec fn index_of(self, n: Seq<char>) -> int {
        self.heads.index_of(n)
    }
}

impl View for Grammars {
    type V = GrammarView;

    closed spec fn view(&self) -> GrammarView {
        GrammarView {
            heads: names_in(self.heads),
            bodies: self.bodies@.map_values(|v: Vec<Vec<NodeType>>| alts_view(v@)),
        }
    }
}

impl Grammars {
    pub fn new() -> (r: Grammars)
        ensures
            r@ == (GrammarView { heads: Seq::empty(), bodies: Seq::empty() }),
    {
        let r = Grammars { heads: new_names(), bodies: Vec::new() };
        assert(r@.bodies =~= Seq::<Seq<Seq<Sym>>>::empty());
        r
    }

    pub fn len(&self) -> (r: usize)
        requires
            self@.wf(),
        ensures
            r == self@.heads.len(),
    {
        names_len(&self.heads)
    }

    pub fn head(&self, i: usize) -> (r: &String)
        requires
            self@.wf(),
            i < self@.heads.len(),
        ensures
            r@ == self@.heads[i as int],
    {
        name_at(&self.heads, i)
    }

    pub fn alternatives(&self, i: usize) -> (r: &Vec<Vec<NodeType>>)
        requires
            self@.wf(),
            i < self@.heads.len(),
        ensures
            alts_view(r@) == self@.bodies[i as int],
    {
        &self.bodies[i]
    }

    /// The position of the production named `n`, if there is one.
    pub fn position(&self, n: &str) -> (r: Option<usize>)
        requires
            self@.wf(),
        ensures
            match r {
                Some(i) => self@.heads.contains(n@) && i as int == self@.index_of(n@) && i
                    < self@.heads.len(),
                None => !self@.heads.contains(n@),
            },
    {
        let r = name_position(&self.heads, n);
        proof {
            if let Some(i) = r {
                self@.heads.index_of_first_ensures(n@);
                assert(self@.heads.contains(n@));
            }
        }
        r
    }

    pub fn define(&mut self, head: String, alts: Vec<Vec<NodeType>>)
        requires
            old(self)@.wf(),
        ensures
            final(self)@ == old(self)@.define(head@, alts_view(alts@)),
            final(self)@.wf(),
    {
        let ghost before = self@;
        let ghost av = alts_view(alts@);
        let (i, fresh) = insert_name(&mut self.heads, head);
        if fresh {
            self.bodies.push(alts);
            assert(self@.bodies =~= before.bodies.push(av));
            assert(self@.heads.no_duplicates());
        } else {
            proof {
                before.heads.index_of_first_ensures(names_in(self.heads)[i as int]);
            }
            self.bodies.set(i, alts);
            assert(self@.bodies =~= before.bodies.update(i as int, av));
        }
    }
}

/// A name stands for a terminal where a pattern has it, else for a nonterminal.
pub open spec fn sym_of(ps: Seq<PatternView>, w: Seq<char>) -> Sym {
    if exists|i: int| 0 <= i < ps.len() && (#[trigger] ps[i]).name == w {
        Sym::Term(w)
    } else {
        Sym::Nonterm(w)
    }
}

/// The symbols of the alternative written in range `a`: its words.
pub open spec fn alt_of(t: Seq<char>, ps: Seq<PatternView>, a: (int, int)) -> Seq<Sym> {
    word_ranges(t, a.0, a.1).map_values(|w: (int, int)| sym_of(ps, t.subrange(w.0, w.1)))
}

/// Where the `->` of the production on line `l` stands, or the line's end.
pub open spec fn line_arrow(t: Seq<char>, l: (int, int)) -> int {
    find_arrow(t, l.0 + 1, l.1)
}

pub open spec fn line_head(t: Seq<char>, l: (int, int)) -> Seq<char> {
    let q = crate::text::trimmed(t, l.0, line_arrow(t, l));
    t.subrange(q.0, q.1)
}

pub open spec fn line_alts(t: Seq<char>, ps: Seq<PatternView>, l: (int, int)) -> Seq<Seq<Sym>> {
    split_ranges(t, '|', line_arrow(t, l) + 2, l.1).map_values(|a: (int, int)| alt_of(t, ps, a))
}

/// The production `__ROOT -> start $`.
pub open spec fn root_alts(start: Seq<char>) -> Seq<Seq<Sym>> {
    seq![seq![Sym::Nonterm(start), Sym::Term(eof_name())]]
}

/// The grammar `g` once the productions on `lines` are added; lines without
/// `->` are skipped, and the first production is preceded by the root one.
pub open spec fn load_grammar(
    t: Seq<char>,
    ps: Seq<PatternView>,
    lines: Seq<(int, int)>,
    g: GrammarView,
) -> GrammarView
    decreases lines.len(),
{
    if lines.len() == 0 {
        g
    } else {
        let l = lines[0];
        if line_arrow(t, l) >= l.1 {
            load_grammar(t, ps, lines.drop_first(), g)
        } else {
            let head = line_head(t, l);
            let g1 = if g.heads.len() == 0 {
                g.define(root_name(), root_alts(head))
            } else {
                g
            };
            load_grammar(t, ps, lines.drop_first(), g1.define(head, line_alts(t, ps, l)))
        }
    }
}

/// Whether a pattern is named `w`.
fn is_pattern_name(patterns: &Vec<Pattern>, w: &str) -> (r: bool)
    ensures
        r == exists|i: int|
            0 <= i < patterns@.len() && (#[trigger] pattern_views(patterns@)[i]).name == w@,
{
    let mut i: usize = 0;
    while i < patterns.len()
        invariant
            i <= patterns@.len(),
            forall|k: int| 0 <= k < i ==> (#[trigger] pattern_views(patterns@)[k]).name != w@,
        decreases patterns@.len() - i,
    {
        if same_text(patterns[i].name().as_str(), w) {
            assert(pattern_views(patterns@)[i as int].name == w@);
            return true;
        }
        i = i + 1;
    }
    false
}

fn symbols(content: &str, t: &Vec<char>, patterns: &Vec<Pattern>, a: usize, b: usize) -> (r: Vec<
    NodeType,
>)
    requires
        t@ == content@,
        a <= b <= t@.len(),
    ensures
        alt_view(r@) == alt_of(t@, pattern_views(patterns@), (a as int, b as int)),
{
    let ghost ps = pattern_views(patterns@);
    let ws = words(t, a, b);
    let ghost all = word_ranges(t@, a as int, b as int);
    let mut r: Vec<NodeType> = Vec::new();
    let mut m: usize = 0;
    while m < ws.len()
        invariant
            t@ == content@,
            ps == pattern_views(patterns@),
            as_ints(ws@) == all,
            within(ws@, a as int, b as int),
            b <= t@.len(),
            m <= ws@.len(),
            alt_view(r@) =~= all.take(m as int).map_values(
                |w: (int, int)| sym_of(ps, t@.subrange(w.0, w.1)),
            ),
        decreases ws@.len() - m,
    {
        let (s, e) = ws[m];
        let w = piece(content, s, e);
        let sym = if is_pattern_name(patterns, w.as_str()) {
            NodeType::Token { name: w }
        } else {
            NodeType::Grammar { name: w }
        };
        let ghost before = r@;
        r.push(sym);
        assert(all[m as int] == (s as int, e as int));
        assert(all.take(m + 1) =~= all.take(m as int).push((s as int, e as int)));
        assert(alt_view(r@) =~= alt_view(before).push(sym@));
        m = m + 1;
    }
    assert(all.take(m as int) =~= all);
    r
}

fn alternatives_of(content: &str, t: &Vec<char>, patterns: &Vec<Pattern>, a: usize, b: usize) -> (r:
    Vec<Vec<NodeType>>)
    requires
        t@ == content@,
        a <= b <= t@.len(),
    ensures
        alts_view(r@) == split_ranges(t@, '|', a as int, b as int).map_values(
            |x: (int, int)| alt_of(t@, pattern_views(patterns@), x),
        ),
{
    let ghost ps = pattern_views(patterns@);
    let parts = split(t, '|', a, b);
    let ghost all = split_ranges(t@, '|', a as int, b as int);
    let mut r: Vec<Vec<NodeType>> = Vec::new();
    let mut m: usize = 0;
    while m < parts.len()
        invariant
            t@ == content@,
            ps == pattern_views(patterns@),
            as_ints(parts@) == all,
            within(parts@, a as int, b as int),
            b <= t@.len(),
            m <= parts@.len(),
            alts_view(r@) =~= all.take(m as int).map_values(|x: (int, int)| alt_of(t@, ps, x)),
        decreases parts@.len() - m,
    {
        let (s, e) = parts[m];
        let alt = symbols(content, t, patterns, s, e);
        let ghost before = r@;
        let ghost av = alt_view(alt@);
        r.push(alt);
        assert(all[m as int] == (s as int, e as int));
        assert(all.take(m + 1) =~= all.take(m as int).push((s as int, e as int)));
        assert(alts_view(r@) =~= alts_view(before).push(av));
        m = m + 1;
    }
    assert(all.take(m as int) =~= all);
    r
}

impl Grammars {
    /// Reads a grammar specification: one `HEAD -> BODY` production per line,
    /// `BODY` being `|`-separated alternatives of space-separated symbol
    /// names. Names that a pattern has are terminals. Other lines are skipped.
    pub fn from_text(content: &str, patterns: &Vec<Pattern>) -> (r: Grammars)
        ensures
            r@ == load_grammar(
                content@,
                pattern_views(patterns@),
                line_ranges(content@, 0),
                GrammarView { heads: Seq::empty(), bodies: Seq::empty() },
            ),
            r@.wf(),
    {
        let ghost text = content@;
        let ghost ps = pattern_views(patterns@);
        let t = chars_of(content);
        let ls = lines(&t);
        let ghost all = line_ranges(text, 0);
        let mut g = Grammars::new();
        let mut k: usize = 0;
        assert(as_ints(ls@).subrange(0, ls@.len() as int) =~= all);
        while k < ls.len()
            invariant
                t@ == text,
                text == content@,
                ps == pattern_views(patterns@),
                as_ints(ls@) == all,
                all == line_ranges(text, 0),
                within(ls@, 0, t@.len() as int),
                k <= ls@.len(),
                g@.wf(),
                load_grammar(
                    text,
                    ps,
                    all,
                    GrammarView { heads: Seq::empty(), bodies: Seq::empty() },
                ) == load_grammar(text, ps, all.subrange(k as int, all.len() as int), g@),
            decreases ls@.len() - k,
        {
            let (a, b) = ls[k];
            let ghost l = (a as int, b as int);
            assert(all[k as int] == l);
            assert(all.subrange(k as int, all.len() as int).drop_first() =~= all.subrange(
                k + 1,
                all.len() as int,
            ));
            let ar = if a < b {
                arrow(&t, a + 1, b)
            } else {
                b
            };
            if ar < b {
                let (lo, hi) = crate::text::trim(&t, a, ar);
                let head = piece(content, lo, hi);
                let alts = alternatives_of(content, &t, patterns, ar + 2, b);
                if g.len() == 0 {
                    let root = String::from_str("__ROOT");
                    let eof = String::from_str("$");
                    proof {
                        reveal_strlit("__ROOT");
                        reveal_strlit("$");
                        assert(root@ =~= root_name());
                        assert(eof@ =~= eof_name());
                    }
                    let start = NodeType::Grammar { name: head.clone() };
                    let end = NodeType::Token { name: eof };
                    let root_alt = vec![start, end];
                    assert(alt_view(root_alt@) =~= seq![Sym::Nonterm(head@), Sym::Term(eof_name())]);
                    let root_body = vec![root_alt];
                    assert(alts_view(root_body@) =~= root_alts(head@));
                    g.define(root, root_body);
                }
                g.define(head, alts);
            }
            k = k + 1;
        }
        assert(all.subrange(k as int, all.len() as int) =~= Seq::<(int, int)>::empty());
        g
    }
}

} // verus!
