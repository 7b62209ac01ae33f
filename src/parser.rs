//! The predictive parser: the compiled grammar, and the table-driven machine
//! that turns tokens into a parse tree.
use crate::grammar::{alt_view, eof_name, is_epsilon, is_epsilon_alt, load_grammar, GrammarView, Grammars, NodeType, Sym};
use crate::sets::{build_first, build_follow, first_sets, follow_sets, sets_view};
use crate::table::{build_parsing_table, rows_view, table_of, Row, RowView};
use crate::text::line_ranges;
use crate::tokenizer::{same_text, pattern_views, token_views, tokenize, unknown_token_message, PatternView, Token, TokenView, Tokenizer};
use indexmap::IndexSet;
use vstd::prelude::*;

verus! {

/// The most steps the machine takes for each token before it gives up on a
/// derivation that never consumes one (a grammar with left recursion).
pub const STEPS_PER_TOKEN: usize = 4096;

/// A compiled grammar: productions, FIRST and FOLLOW sets, parse table, and
/// the tokenizer of its input.
pub struct Parser {
    grammars: Grammars,
    first: Vec<IndexSet<String>>,
    follow: Vec<IndexSet<String>>,
    table: Vec<Row>,
    tokenizer: Tokenizer,
}

pub ghost struct ParserView {
    pub patterns: Seq<PatternView>,
    pub grammar: GrammarView,
    pub first: Seq<Seq<Seq<char>>>,
    pub follow: Seq<Seq<Seq<char>>>,
    pub table: Seq<RowView>,
}

impl View for Parser {
    type V = ParserView;

    closed spec fn view(&self) -> ParserView {
        ParserView {
            patterns: pattern_views(self.tokenizer.patterns@),
            grammar: self.grammars@,
            first: sets_view(self.first@),
            follow: sets_view(self.follow@),
            table: rows_view(self.table@),
        }
    }
}

/// What loading a grammar text against a pattern store gives.
pub open spec fn compiled(ps: Seq<PatternView>, text: Seq<char>) -> ParserView {
    let g = load_grammar(
        text,
        ps,
        line_ranges(text, 0),
        GrammarView { heads: Seq::empty(), bodies: Seq::empty() },
    );
    let fs = first_sets(g);
    let fl = follow_sets(g, fs);
    ParserView { patterns: ps, grammar: g, first: fs, follow: fl, table: table_of(g, fs, fl) }
}

impl ParserView {
    pub open spec fn wf(self) -> bool {
        &&& self.grammar.wf()
        &&& self.first.len() == self.grammar.heads.len()
        &&& self.follow.len() == self.grammar.heads.len()
        &&& self.table.len() == self.grammar.heads.len()
        &&& forall|h: int| 0 <= h < self.table.len() ==> (#[trigger] self.table[h]).wf()
        &&& forall|h: int|
            0 <= h < self.table.len() ==> crate::table::alts_below(
                #[trigger] self.table[h],
                self.grammar.bodies[h].len() as int,
            )
    }
}

/// Loading the same texts twice gives the same productions, FIRST and FOLLOW
/// sets and parse table, in the same order.
pub proof fn lemma_compilation_deterministic(p: ParserView, q: ParserView, ps: Seq<PatternView>, text: Seq<char>)
    requires
        p == compiled(ps, text),
        q == compiled(ps, text),
    ensures
        p.grammar == q.grammar,
        p.first == q.first,
        p.follow == q.follow,
        p.table == q.table,
{
}

impl Parser {
    /// Compiles the grammar text against the tokenizer's patterns.
    pub fn from_text(content: &str, tokenizer: Tokenizer) -> (r: Parser)
        ensures
            r@ == compiled(pattern_views(tokenizer.patterns@), content@),
            r@.wf(),
    {
        let grammars = Grammars::from_text(content, &tokenizer.patterns);
        let first = build_first(&grammars);
        let follow = build_follow(&grammars, &first);
        let table = build_parsing_table(&grammars, &first, &follow);
        let r = Parser { grammars, first, follow, table, tokenizer };
        proof {
            let g = r@.grammar;
            assert forall|h: int| 0 <= h < r@.table.len() implies crate::table::alts_below(
                #[trigger] r@.table[h],
                g.bodies[h].len() as int,
            ) by {
                crate::table::lemma_row_upto(
                    g.bodies[h],
                    g.bodies[h].len() as int,
                    r@.first[h],
                    r@.follow[h],
                );
            }
        }
        r
    }

    pub fn grammars(&self) -> (r: &Grammars)
        ensures
            r@ == self@.grammar,
    {
        &self.grammars
    }

    pub fn tokenizer(&self) -> (r: &Tokenizer)
        ensures
            pattern_views(r.patterns@) == self@.patterns,
    {
        &self.tokenizer
    }

    pub fn first(&self) -> (r: &Vec<IndexSet<String>>)
        ensures
            sets_view(r@) == self@.first,
    {
        &self.first
    }

    pub fn follow(&self) -> (r: &Vec<IndexSet<String>>)
        ensures
            sets_view(r@) == self@.follow,
    {
        &self.follow
    }

    pub fn table(&self) -> (r: &Vec<Row>)
        ensures
            rows_view(r@) == self@.table,
    {
        &self.table
    }
}

/// A node of the tree under construction: a leaf for a terminal, with the
/// text it matched once it has matched, or an internal node for a
/// nonterminal, with the positions of its children.
#[derive(Debug)]
pub struct Node {
    pub name: String,
    pub value: String,
    pub leaf: bool,
    pub children: Vec<usize>,
}

pub ghost struct NodeView {
    pub name: Seq<char>,
    pub value: Seq<char>,
    pub leaf: bool,
    pub children: Seq<int>,
}

impl View for Node {
    type V = NodeView;

    open spec fn view(&self) -> NodeView {
        NodeView {
            name: self.name@,
            value: self.value@,
            leaf: self.leaf,
            children: self.children@.map_values(|c: usize| c as int),
        }
    }
}

pub open spec fn nodes_view(v: Seq<Node>) -> Seq<NodeView> {
    v.map_values(|n: Node| n@)
}

/// The machine: all nodes so far, the stack of those still to be handled
/// (top last), and the position of the lookahead token.
pub ghost struct Machine {
    pub nodes: Seq<NodeView>,
    pub stack: Seq<int>,
    pub cursor: int,
}

pub ghost enum Outcome {
    Running(Machine),
    Accepted(Machine),
    Rejected(int),
}

/// The name of the lookahead: the token at `cursor`, or `$` past the end.
pub open spec fn lookahead(toks: Seq<TokenView>, cursor: int) -> Seq<char> {
    if 0 <= cursor < toks.len() {
        toks[cursor].name
    } else {
        eof_name()
    }
}

/// A fresh node for a symbol.
pub open spec fn node_for(s: Sym) -> NodeView {
    match s {
        Sym::Term(n) => NodeView { name: n, value: Seq::empty(), leaf: true, children: Seq::empty() },
        Sym::Nonterm(n) => NodeView {
            name: n,
            value: Seq::empty(),
            leaf: false,
            children: Seq::empty(),
        },
    }
}

/// One step: pop the top node. An internal node takes the alternative that
/// the table gives for the lookahead, with a fresh child for each symbol
/// (none for the empty alternative), pushed so that the first is on top. A
/// leaf must be named as the lookahead: `$` accepts, any other takes the
/// token's text and moves to the next token.
pub open spec fn step(p: ParserView, toks: Seq<TokenView>, m: Machine) -> Outcome {
    let la = lookahead(toks, m.cursor);
    if m.stack.len() == 0 {
        Outcome::Rejected(m.cursor)
    } else {
        let id = m.stack.last();
        let rest = m.stack.drop_last();
        let node = m.nodes[id];
        if !node.leaf {
            if !p.grammar.heads.contains(node.name) {
                Outcome::Rejected(m.cursor)
            } else {
                let h = p.grammar.index_of(node.name);
                match p.table[h].get(la) {
                    None => Outcome::Rejected(m.cursor),
                    Some(j) => {
                        let alt = p.grammar.bodies[h][j];
                        if is_epsilon_alt(alt) {
                            Outcome::Running(Machine { stack: rest, ..m })
                        } else {
                            let base = m.nodes.len();
                            let n = alt.len();
                            let kids = Seq::new(n, |k: int| base + k);
                            let fresh = Seq::new(n, |k: int| node_for(alt[k]));
                            Outcome::Running(
                                Machine {
                                    nodes: (m.nodes + fresh).update(
                                        id,
                                        NodeView { children: kids, ..node },
                                    ),
                                    stack: rest + Seq::new(n, |k: int| base + n - 1 - k),
                                    cursor: m.cursor,
                                },
                            )
                        }
                    },
                }
            }
        } else if node.name != la {
            Outcome::Rejected(m.cursor)
        } else if node.name == eof_name() {
            Outcome::Accepted(Machine { stack: rest, ..m })
        } else {
            Outcome::Running(
                Machine {
                    nodes: m.nodes.update(id, NodeView { value: toks[m.cursor].value, ..node }),
                    stack: rest,
                    cursor: m.cursor + 1,
                },
            )
        }
    }
}

/// The machine run for at most `fuel` steps; out of fuel it rejects at the
/// lookahead.
pub open spec fn run(p: ParserView, toks: Seq<TokenView>, m: Machine, fuel: nat) -> Outcome
    decreases fuel,
{
    if fuel == 0 {
        Outcome::Rejected(m.cursor)
    } else {
        match step(p, toks, m) {
            Outcome::Running(m2) => run(p, toks, m2, (fuel - 1) as nat),
            o => o,
        }
    }
}

/// The start: an end leaf at the bottom of the stack, and above it the node
/// of the first production.
pub open spec fn start(p: ParserView) -> Machine {
    Machine {
        nodes: seq![
            NodeView { name: eof_name(), value: eof_name(), leaf: true, children: Seq::empty() },
            NodeView {
                name: p.grammar.heads[0],
                value: Seq::empty(),
                leaf: false,
                children: Seq::empty(),
            },
        ],
        stack: seq![0, 1],
        cursor: 0,
    }
}

pub open spec fn step_budget(n: nat) -> nat {
    if (n + 1) * STEPS_PER_TOKEN <= usize::MAX {
        ((n + 1) * STEPS_PER_TOKEN) as nat
    } else {
        usize::MAX as nat
    }
}

/// A name for the text that `str::escape_default` gives.
pub uninterp spec fn escaped(s: Seq<char>) -> Seq<char>;

/// Relies on `str::escape_default`: the text with control characters,
/// quotes and backslashes escaped, as a string.
#[verifier::external_body]
fn escape(s: &str) -> (r: String)
    ensures
        r@ == escaped(s@),
{
    s.escape_default().to_string()
}

pub open spec fn digit_char(d: nat) -> char {
    if d == 0 {
        '0'
    } else if d == 1 {
        '1'
    } else if d == 2 {
        '2'
    } else if d == 3 {
        '3'
    } else if d == 4 {
        '4'
    } else if d == 5 {
        '5'
    } else if d == 6 {
        '6'
    } else if d == 7 {
        '7'
    } else if d == 8 {
        '8'
    } else {
        '9'
    }
}

/// `n` in decimal.
pub open spec fn decimal(n: nat) -> Seq<char>
    decreases n,
{
    if n < 10 {
        seq![digit_char(n)]
    } else {
        decimal(n / 10).push(digit_char(n % 10))
    }
}

pub fn to_decimal(n: usize) -> (r: String)
    ensures
        r@ == decimal(n as nat),
    decreases n,
{
    let d = n % 10;
    let s = if d == 0 {
        "0"
    } else if d == 1 {
        "1"
    } else if d == 2 {
        "2"
    } else if d == 3 {
        "3"
    } else if d == 4 {
        "4"
    } else if d == 5 {
        "5"
    } else if d == 6 {
        "6"
    } else if d == 7 {
        "7"
    } else if d == 8 {
        "8"
    } else {
        "9"
    };
    proof {
        reveal_strlit("0");
        reveal_strlit("1");
        reveal_strlit("2");
        reveal_strlit("3");
        reveal_strlit("4");
        reveal_strlit("5");
        reveal_strlit("6");
        reveal_strlit("7");
        reveal_strlit("8");
        reveal_strlit("9");
    }
    assert(s@ =~= seq![digit_char(d as nat)]);
    if n < 10 {
        String::from_str(s)
    } else {
        to_decimal(n / 10).concat(s)
    }
}

pub open spec fn unexpected_token_message(t: TokenView) -> Seq<char> {
    "Unexpected token "@ + escaped(t.value) + " on line "@ + decimal(t.line as nat) + ", column "@
        + decimal(t.column as nat) + "."@
}

pub open spec fn end_of_stream_message() -> Seq<char> {
    "Unexpected end of stream."@
}

pub open spec fn no_grammar_message() -> Seq<char> {
    "Parser doesn't have any grammars."@
}

/// The error at lookahead position `c`.
pub open spec fn rejection_message(toks: Seq<TokenView>, c: int) -> Seq<char> {
    if 0 <= c < toks.len() {
        unexpected_token_message(toks[c])
    } else {
        end_of_stream_message()
    }
}

pub fn unexpected_token(token: &Token) -> (r: String)
    ensures
        r@ == unexpected_token_message(token@),
{
    proof {
        reveal_strlit("Unexpected token ");
        reveal_strlit(" on line ");
        reveal_strlit(", column ");
        reveal_strlit(".");
    }
    String::from_str("Unexpected token ").concat(escape(token.value.as_str()).as_str()).concat(
        " on line ",
    ).concat(to_decimal(token.line).as_str()).concat(", column ").concat(
        to_decimal(token.column).as_str(),
    ).concat(".")
}

fn rejection(tokens: &Vec<Token>, c: usize) -> (r: String)
    ensures
        r@ == rejection_message(token_views(tokens@), c as int),
{
    if c < tokens.len() {
        unexpected_token(&tokens[c])
    } else {
        proof {
            reveal_strlit("Unexpected end of stream.");
        }
        String::from_str("Unexpected end of stream.")
    }
}

pub open spec fn stack_view(s: Seq<usize>) -> Seq<int> {
    s.map_values(|x: usize| x as int)
}

/// Children come after their parent and exist; leaves have none.
pub open spec fn arena_ok(nodes: Seq<NodeView>) -> bool {
    &&& forall|i: int, k: int|
        0 <= i < nodes.len() && 0 <= k < nodes[i].children.len() ==> i < #[trigger] nodes[i].children[k]
            < nodes.len()
    &&& forall|i: int| 0 <= i < nodes.len() && (#[trigger] nodes[i]).leaf ==> nodes[i].children.len() == 0
}

/// The root of the tree once the machine accepts: the first child of the
/// start node, whose production is the synthetic root one.
pub open spec fn tree_root(nodes: Seq<NodeView>) -> int {
    if nodes.len() > 1 && nodes[1].children.len() > 0 {
        nodes[1].children[0]
    } else {
        1
    }
}

/// What parsing `text` gives: the nodes of the accepted tree, or the error of
/// the tokenizer, of an empty grammar, or of the lookahead where the machine
/// rejected.
pub open spec fn parse_result(p: ParserView, text: Seq<char>) -> Result<Seq<NodeView>, Seq<char>> {
    match tokenize(p.patterns, text) {
        Err(u) => Err(unknown_token_message(u)),
        Ok(toks) => if p.grammar.heads.len() == 0 {
            Err(no_grammar_message())
        } else {
            match run(p, toks, start(p), step_budget(toks.len())) {
                Outcome::Accepted(m) => Ok(m.nodes),
                Outcome::Rejected(c) => Err(rejection_message(toks, c)),
                Outcome::Running(_) => Err(end_of_stream_message()),
            }
        },
    }
}

fn node_of(s: &NodeType) -> (r: Node)
    ensures
        r@ == node_for(s@),
{
    let kids: Vec<usize> = Vec::new();
    let r = match s {
        NodeType::Token { name } => Node {
            name: name.clone(),
            value: String::new(),
            leaf: true,
            children: kids,
        },
        NodeType::Grammar { name } => Node {
            name: name.clone(),
            value: String::new(),
            leaf: false,
            children: kids,
        },
    };
    assert(r@.children =~= Seq::<int>::empty());
    r
}

/// Gives node `id` a fresh child for each symbol of `alt`, and pushes them
/// so that the first is on top.
fn expand(nodes: &mut Vec<Node>, stack: &mut Vec<usize>, id: usize, alt: &Vec<NodeType>)
    requires
        id < old(nodes)@.len(),
        !old(nodes)@[id as int].leaf,
        arena_ok(nodes_view(old(nodes)@)),
    ensures
        nodes_view(final(nodes)@) == (nodes_view(old(nodes)@) + Seq::new(
            alt@.len(),
            |k: int| node_for(alt_view(alt@)[k]),
        )).update(
            id as int,
            NodeView {
                children: Seq::new(alt@.len(), |k: int| old(nodes)@.len() + k),
                ..old(nodes)@[id as int]@
            },
        ),
        stack_view(final(stack)@) == stack_view(old(stack)@) + Seq::new(
            alt@.len(),
            |k: int| old(nodes)@.len() + alt@.len() - 1 - k,
        ),
        arena_ok(nodes_view(final(nodes)@)),
{
    let ghost av = alt_view(alt@);
    let ghost nv0 = nodes_view(nodes@);
    let ghost st0 = stack_view(stack@);
    let base = nodes.len();
    let n = alt.len();
    let mut kids: Vec<usize> = Vec::new();
    let mut k: usize = 0;
    while k < n
        invariant
            n == alt@.len(),
            av == alt_view(alt@),
            base == nv0.len(),
            id < base,
            k <= n,
            nodes@.len() == base + k,
            nodes_view(nodes@) =~= nv0 + Seq::new(k as nat, |q: int| node_for(av[q])),
            kids@.map_values(|c: usize| c as int) =~= Seq::new(k as nat, |q: int| base + q),
            stack_view(stack@) == st0,
        decreases n - k,
    {
        let node = node_of(&alt[k]);
        let ghost before = nodes_view(nodes@);
        let ghost kb = kids@;
        nodes.push(node);
        assert(nodes_view(nodes@) =~= before.push(node@));
        kids.push(nodes.len() - 1);
        assert(kids@.map_values(|c: usize| c as int) =~= kb.map_values(|c: usize| c as int).push(
            (base + k) as int,
        ));
        k = k + 1;
    }
    let ghost grown = nodes_view(nodes@);
    let total = nodes.len();
    let updated = Node {
        name: nodes[id].name.clone(),
        value: nodes[id].value.clone(),
        leaf: nodes[id].leaf,
        children: kids,
    };
    assert(grown[id as int] == nv0[id as int]);
    assert(updated@.children =~= Seq::new(n as nat, |q: int| base + q));
    assert(updated@ == NodeView { children: Seq::new(n as nat, |q: int| base + q), ..nv0[id as int] });
    nodes.set(id, updated);
    assert(nodes_view(nodes@) =~= grown.update(id as int, updated@));
    let ghost done = nodes_view(nodes@);
    proof {
        let nv = nodes_view(nodes@);
        assert forall|i: int, q: int|
            0 <= i < nv.len() && 0 <= q < nv[i].children.len() implies i < #[trigger] nv[i].children[q]
            < nv.len() by {
            if i == id {
                assert(nv[i].children[q] == base + q);
            } else if i < base {
                assert(nv[i] == nv0[i]);
            } else {
                assert(nv[i] == node_for(av[i - base]));
            }
        }
        assert forall|i: int| 0 <= i < nv.len() && (#[trigger] nv[i]).leaf implies nv[i].children.len() == 0 by {
            if i < base && i != id {
                assert(nv[i] == nv0[i]);
            } else if i >= base {
                assert(nv[i] == node_for(av[i - base]));
            }
        }
    }
    let mut k: usize = n;
    while k > 0
        invariant
            n == alt@.len(),
            base + n == total,
            nodes_view(nodes@) == done,
            k <= n,
            stack_view(stack@) =~= st0 + Seq::new((n - k) as nat, |q: int| base + n - 1 - q),
        decreases k,
    {
        k = k - 1;
        let ghost before = stack_view(stack@);
        stack.push(base + k);
        assert(stack_view(stack@) =~= before.push((base + k) as int));
    }
}

/// A parse tree: a leaf for each token, with the pattern's name and the text
/// it matched, and an inner node for each production used, with its children
/// in order.
#[derive(Debug, PartialEq, Eq)]
pub enum AST {
    Token { name: String, value: String },
    Grammar { name: String, children: Vec<AST> },
}

/// Whether `a` is the tree rooted at node `id`.
pub open spec fn ast_is(a: AST, ns: Seq<NodeView>, id: int) -> bool
    decreases ns.len() - id,
{
    if id < 0 || id >= ns.len() {
        false
    } else {
        let n = ns[id];
        match a {
            AST::Token { name, value } => n.leaf && name@ == n.name && value@ == n.value,
            AST::Grammar { name, children } => {
                &&& !n.leaf
                &&& name@ == n.name
                &&& children@.len() == n.children.len()
                &&& forall|k: int|
                    0 <= k < children@.len() ==> id < n.children[k] < ns.len() && ast_is(
                        #[trigger] children@[k],
                        ns,
                        n.children[k],
                    )
            },
        }
    }
}

fn build_ast(nodes: &Vec<Node>, id: usize) -> (r: AST)
    requires
        arena_ok(nodes_view(nodes@)),
        id < nodes@.len(),
    ensures
        ast_is(r, nodes_view(nodes@), id as int),
    decreases nodes@.len() - id,
{
    let ghost ns = nodes_view(nodes@);
    let n = &nodes[id];
    assert(ns[id as int] == n@);
    if n.leaf {
        AST::Token { name: n.name.clone(), value: n.value.clone() }
    } else {
        let mut children: Vec<AST> = Vec::new();
        let mut k: usize = 0;
        while k < n.children.len()
            invariant
                ns == nodes_view(nodes@),
                arena_ok(ns),
                id < nodes@.len(),
                n@ == ns[id as int],
                k <= n.children@.len(),
                children@.len() == k,
                forall|q: int|
                    0 <= q < k ==> id < n@.children[q] < ns.len() && ast_is(
                        #[trigger] children@[q],
                        ns,
                        n@.children[q],
                    ),
            decreases n.children@.len() - k,
        {
            let c = n.children[k];
            assert(n@.children[k as int] == c as int);
            assert(id < c < nodes@.len());
            let sub = build_ast(nodes, c);
            children.push(sub);
            k = k + 1;
        }
        AST::Grammar { name: n.name.clone(), children }
    }
}

/// A parse tree held as nodes and the position of its root.
#[derive(Debug)]
pub struct ParseTree {
    pub nodes: Vec<Node>,
    pub root: usize,
}

impl Parser {
    /// Runs the machine on the tokens of `content`.
    pub fn parse_tree(&self, content: &str) -> (r: Result<ParseTree, String>)
        requires
            self@.wf(),
            content@.len() < usize::MAX,
        ensures
            match parse_result(self@, content@) {
                Ok(ns) => r matches Ok(t) && nodes_view(t.nodes@) == ns && t.root == tree_root(ns)
                    && t.root < ns.len() && arena_ok(ns),
                Err(m) => r matches Err(e) && e@ == m,
            },
    {
        let ghost p = self@;
        let tokens = match self.tokenizer.parse(content) {
            Ok(t) => t,
            Err(e) => return Err(e),
        };
        let ghost toks = token_views(tokens@);
        assert(tokenize(p.patterns, content@) == Ok::<Seq<TokenView>, Seq<char>>(toks));
        if self.grammars.len() == 0 {
            proof {
                reveal_strlit("Parser doesn't have any grammars.");
            }
            return Err(String::from_str("Parser doesn't have any grammars."));
        }
        proof {
            reveal_strlit("$");
        }
        let eof = String::from_str("$");
        assert(eof@ =~= eof_name());
        let mut nodes: Vec<Node> = Vec::new();
        nodes.push(Node { name: eof.clone(), value: eof, leaf: true, children: Vec::new() });
        nodes.push(
            Node {
                name: self.grammars.head(0).clone(),
                value: String::new(),
                leaf: false,
                children: Vec::new(),
            },
        );
        let mut stack: Vec<usize> = Vec::new();
        stack.push(0);
        stack.push(1);
        assert(nodes_view(nodes@)[0].children =~= Seq::<int>::empty());
        assert(nodes_view(nodes@)[1].children =~= Seq::<int>::empty());
        assert(nodes_view(nodes@)[0] == start(p).nodes[0]);
        assert(nodes_view(nodes@)[1] == start(p).nodes[1]);
        assert(nodes_view(nodes@) =~= start(p).nodes);
        assert(stack_view(stack@) =~= start(p).stack);
        let n1 = tokens.len();
        let budget: usize = match n1.checked_add(1) {
            Some(m) => match m.checked_mul(STEPS_PER_TOKEN) {
                Some(b) => b,
                None => usize::MAX,
            },
            None => usize::MAX,
        };
        assert(budget as nat == step_budget(toks.len()));
        let mut fuel = budget;
        let mut cursor: usize = 0;
        loop
            invariant
                p == self@,
                p.wf(),
                p.grammar.heads.len() > 0,
                toks == token_views(tokens@),
                tokenize(p.patterns, content@) == Ok::<Seq<TokenView>, Seq<char>>(toks),
                cursor <= tokens@.len(),
                nodes@.len() >= 2,
                forall|q: int| 0 <= q < stack@.len() ==> #[trigger] stack@[q] < nodes@.len(),
                arena_ok(nodes_view(nodes@)),
                run(p, toks, start(p), step_budget(toks.len())) == run(
                    p,
                    toks,
                    Machine { nodes: nodes_view(nodes@), stack: stack_view(stack@), cursor: cursor as int },
                    fuel as nat,
                ),
            decreases fuel,
        {
            if fuel == 0 {
                assert(run(p, toks, Machine { nodes: nodes_view(nodes@), stack: stack_view(stack@), cursor: cursor as int }, 0) == Outcome::Rejected(cursor as int));
                return Err(rejection(&tokens, cursor));
            }
            let ghost m = Machine {
                nodes: nodes_view(nodes@),
                stack: stack_view(stack@),
                cursor: cursor as int,
            };
            let ghost fuel0 = fuel;
            fuel = fuel - 1;
            proof {
                reveal_strlit("$");
            }
            assert("$"@ =~= eof_name());
            let la: &str = if cursor < tokens.len() {
                tokens[cursor].name.as_str()
            } else {
                "$"
            };
            assert(la@ == lookahead(toks, cursor as int));
            let ghost old_stack = stack@;
            match stack.pop() {
                None => {
                    assert(run(p, toks, m, fuel0 as nat) == Outcome::Rejected(cursor as int));
                    return Err(rejection(&tokens, cursor));
                },
                Some(id) => {
                    assert(stack_view(stack@) =~= m.stack.drop_last());
                    assert(m.stack.last() == id as int);
                    if !nodes[id].leaf {
                        match self.grammars.position(nodes[id].name.as_str()) {
                            None => {
                                assert(run(p, toks, m, fuel0 as nat) == Outcome::Rejected(cursor as int));
                                return Err(rejection(&tokens, cursor));
                            },
                            Some(h) => {
                                assert(p.table[h as int] == self.table@[h as int]@);
                                match self.table[h].get(la) {
                                    None => {
                                        assert(run(p, toks, m, fuel0 as nat) == Outcome::Rejected(cursor as int));
                                        return Err(rejection(&tokens, cursor));
                                    },
                                    Some(j) => {
                                        let alts = self.grammars.alternatives(h);
                                        assert(crate::table::alts_below(
                                            p.table[h as int],
                                            p.grammar.bodies[h as int].len() as int,
                                        ));
                                        let ghost row = p.table[h as int];
                                        proof {
                                            row.keys.index_of_first_ensures(la@);
                                        }
                                        let alt = &alts[j];
                                        assert(alt_view(alt@) == p.grammar.bodies[h as int][j as int]);
                                        assert(p.grammar.index_of(m.nodes[id as int].name) == h);
                                        assert(p.table[h as int].get(la@) == Some(j as int));
                                        if !is_epsilon(alt) {
                                            let ghost salt = p.grammar.bodies[h as int][j as int];
                                            let ghost base = m.nodes.len();
                                            let ghost nn = salt.len();
                                            let ghost rest = m.stack.drop_last();
                                            expand(&mut nodes, &mut stack, id, alt);
                                            assert(nodes_view(nodes@) =~= (m.nodes + Seq::new(nn, |k: int| node_for(salt[k]))).update(
                                                id as int,
                                                NodeView { children: Seq::new(nn, |k: int| base + k), ..m.nodes[id as int] },
                                            ));
                                            assert(stack_view(stack@) =~= rest + Seq::new(nn, |k: int| base + nn - 1 - k));
                                            assert forall|q: int| 0 <= q < stack@.len() implies #[trigger] stack@[q] < nodes@.len() by {
                                                assert(stack_view(stack@)[q] == stack@[q] as int);
                                                if q < rest.len() {
                                                    assert(rest[q] == old_stack[q] as int);
                                                }
                                            }
                                            assert(step(p, toks, m) == Outcome::Running(
                                                Machine {
                                                    nodes: nodes_view(nodes@),
                                                    stack: stack_view(stack@),
                                                    cursor: cursor as int,
                                                },
                                            ));
                                        } else {
                                            assert(step(p, toks, m) == Outcome::Running(Machine { stack: m.stack.drop_last(), ..m }));
                                        }
                                    },
                                }
                            },
                        }
                    } else if !same_text(nodes[id].name.as_str(), la) {
                        assert(run(p, toks, m, fuel0 as nat) == Outcome::Rejected(cursor as int));
                        return Err(rejection(&tokens, cursor));
                    } else if same_text(nodes[id].name.as_str(), "$") {
                        assert("$"@ =~= eof_name());
                        assert(run(p, toks, m, fuel0 as nat) == Outcome::Accepted(Machine { stack: m.stack.drop_last(), ..m }));
                        assert(parse_result(p, content@) == Ok::<Seq<NodeView>, Seq<char>>(m.nodes));
                        let root = if nodes[1].children.len() > 0 {
                            assert(m.nodes[1].children[0] == nodes@[1].children@[0] as int);
                            nodes[1].children[0]
                        } else {
                            1
                        };
                        return Ok(ParseTree { nodes, root });
                    } else {
                        let updated = Node {
                            name: nodes[id].name.clone(),
                            value: tokens[cursor].value.clone(),
                            leaf: true,
                            children: Vec::new(),
                        };
                        let ghost before = nodes_view(nodes@);
                        nodes.set(id, updated);
                        assert(updated@.children =~= before[id as int].children);
                        assert(nodes_view(nodes@) =~= before.update(id as int, updated@));
                        assert(step(p, toks, m) == Outcome::Running(Machine {
                            nodes: nodes_view(nodes@),
                            stack: stack_view(stack@),
                            cursor: cursor + 1,
                        }));
                        cursor = cursor + 1;
                    }
                },
            }
        }
    }

    /// Parses `content`: tokenizes it, then runs the table against the
    /// tokens from the synthetic root, and gives the tree of the first
    /// production; or the first error.
    pub fn parse(&self, content: &str) -> (r: Result<AST, String>)
        requires
            self@.wf(),
            content@.len() < usize::MAX,
        ensures
            match parse_result(self@, content@) {
                Ok(ns) => r matches Ok(a) && ast_is(a, ns, tree_root(ns)),
                Err(m) => r matches Err(e) && e@ == m,
            },
    {
        match self.parse_tree(content) {
            Ok(t) => Ok(build_ast(&t.nodes, t.root)),
            Err(e) => Err(e),
        }
    }
}

} // verus!
