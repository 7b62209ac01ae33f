//! FIRST and FOLLOW sets of the productions.
use crate::grammar::{alt_view, alts_view, has_epsilon, has_epsilon_alt, eof_name, GrammarView, Grammars, NodeType, Sym};
use crate::names::{add_all, add_name, add_names, add_to, names_in, new_names, without};
use crate::tokenizer::{epsilon_name, same_text};
use indexmap::IndexSet;
use vstd::prelude::*;

verus! {

/// FIRST of production `a`: for each alternative in order, its first symbol
/// when that is a terminal, or FIRST of the production it names. A chain of
/// productions is followed at most `depth` steps.
pub open spec fn first_of(g: GrammarView, depth: nat, a: int) -> Seq<Seq<char>>
    decreases depth, g.bodies[a].len() + 1,
{
    if depth == 0 || a < 0 || a >= g.bodies.len() {
        Seq::empty()
    } else {
        first_alts(g, depth, a, g.bodies[a].len() as int)
    }
}

/// What the first `m` alternatives of production `a` give to its FIRST set.
pub open spec fn first_alts(g: GrammarView, depth: nat, a: int, m: int) -> Seq<Seq<char>>
    decreases depth, m,
{
    if depth == 0 || m <= 0 || a < 0 || a >= g.bodies.len() || m > g.bodies[a].len() {
        Seq::empty()
    } else {
        let acc = first_alts(g, depth, a, m - 1);
        let alt = g.bodies[a][m - 1];
        if alt.len() == 0 {
            acc
        } else {
            match alt[0] {
                Sym::Term(n) => add_name(acc, n),
                Sym::Nonterm(n) => if g.heads.contains(n) {
                    add_names(acc, first_of(g, (depth - 1) as nat, g.index_of(n)))
                } else {
                    acc
                },
            }
        }
    }
}

/// The FIRST sets of all productions. Following a chain as many steps as there
/// are productions reaches every terminal that can begin a production in a
/// grammar without left recursion, and cuts the cycles of one that has it.
pub open spec fn first_sets(g: GrammarView) -> Seq<Seq<Seq<char>>> {
    Seq::new(g.heads.len(), |a: int| first_of(g, g.heads.len(), a))
}

pub open spec fn sets_view(v: Seq<IndexSet<String>>) -> Seq<Seq<Seq<char>>> {
    v.map_values(|s: IndexSet<String>| names_in(s))
}

fn first_set(g: &Grammars, depth: usize, a: usize) -> (r: IndexSet<String>)
    requires
        g@.wf(),
        a < g@.heads.len(),
    ensures
        names_in(r) == first_of(g@, depth as nat, a as int),
    decreases depth,
{
    let mut acc = new_names();
    if depth == 0 {
        return acc;
    }
    let alts = g.alternatives(a);
    let mut m: usize = 0;
    while m < alts.len()
        invariant
            g@.wf(),
            a < g@.heads.len(),
            depth > 0,
            alts_view(alts@) == g@.bodies[a as int],
            m <= alts@.len(),
            names_in(acc) == first_alts(g@, depth as nat, a as int, m as int),
        decreases alts@.len() - m,
    {
        let alt = &alts[m];
        assert(alt_view(alt@) == g@.bodies[a as int][m as int]);
        if alt.len() > 0 {
            match &alt[0] {
                NodeType::Token { name } => {
                    add_to(&mut acc, name.clone());
                },
                NodeType::Grammar { name } => {
                    match g.position(name.as_str()) {
                        Some(b) => {
                            let sub = first_set(g, depth - 1, b);
                            add_all(&mut acc, &sub, None);
                        },
                        None => {},
                    }
                },
            }
        }
        m = m + 1;
    }
    acc
}

/// The FIRST set of every production, at the same positions.
pub fn build_first(g: &Grammars) -> (r: Vec<IndexSet<String>>)
    requires
        g@.wf(),
    ensures
        sets_view(r@) == first_sets(g@),
        r@.len() == g@.heads.len(),
{
    let n = g.len();
    let mut r: Vec<IndexSet<String>> = Vec::new();
    let mut a: usize = 0;
    while a < n
        invariant
            g@.wf(),
            n == g@.heads.len(),
            a <= n,
            sets_view(r@) =~= first_sets(g@).take(a as int),
        decreases n - a,
    {
        let s = first_set(g, n, a);
        let ghost before = r@;
        r.push(s);
        assert(sets_view(r@) =~= sets_view(before).push(names_in(s)));
        a = a + 1;
    }
    r
}

/// Where the scan of one alternative stands: what was gathered, whether the
/// production sought was seen, and whether something was taken because of it.
pub ghost struct Scan {
    pub acc: Seq<Seq<char>>,
    pub found: bool,
    pub resolved: bool,
}

/// The FOLLOW set of production `h` among those already computed.
pub open spec fn prev_follow(prev: Seq<Seq<Seq<char>>>, h: int) -> Seq<Seq<char>> {
    if 0 <= h < prev.len() {
        prev[h]
    } else {
        Seq::empty()
    }
}

/// Scans alternative `alt` of production `h`, from position `pos`, for what
/// may follow production `a`.
pub open spec fn scan_alt(
    g: GrammarView,
    fs: Seq<Seq<Seq<char>>>,
    prev: Seq<Seq<Seq<char>>>,
    a: int,
    h: int,
    alt: Seq<Sym>,
    pos: int,
    st: Scan,
) -> Scan
    decreases alt.len() - pos,
{
    if pos < 0 || pos >= alt.len() {
        st
    } else {
        match alt[pos] {
            Sym::Term(n) => if n == epsilon_name() {
                scan_alt(g, fs, prev, a, h, alt, pos + 1, st)
            } else if (st.found && n != eof_name()) || (h == a && pos == alt.len() - 1 && alt.len()
                != 1) {
                Scan { acc: add_name(st.acc, n), found: st.found, resolved: true }
            } else {
                scan_alt(g, fs, prev, a, h, alt, pos + 1, st)
            },
            Sym::Nonterm(n) => if n == g.heads[a] {
                scan_alt(g, fs, prev, a, h, alt, pos + 1, Scan { found: true, ..st })
            } else if st.found {
                let known = g.heads.contains(n);
                let x = g.index_of(n);
                let acc1 = if known {
                    add_names(st.acc, without(fs[x], epsilon_name()))
                } else {
                    st.acc
                };
                let acc2 = if known && has_epsilon_alt(g.bodies[x]) {
                    add_names(acc1, prev_follow(prev, h))
                } else {
                    acc1
                };
                scan_alt(g, fs, prev, a, h, alt, pos + 1, Scan { acc: acc2, found: true, resolved: true })
            } else {
                scan_alt(g, fs, prev, a, h, alt, pos + 1, st)
            },
        }
    }
}

/// What alternative `alt` of production `h` adds to FOLLOW of `a`: what the
/// scan gathered, and FOLLOW of `h` where `a` ends it.
pub open spec fn follow_alt(
    g: GrammarView,
    fs: Seq<Seq<Seq<char>>>,
    prev: Seq<Seq<Seq<char>>>,
    a: int,
    h: int,
    alt: Seq<Sym>,
    acc: Seq<Seq<char>>,
) -> Seq<Seq<char>> {
    let st = scan_alt(g, fs, prev, a, h, alt, 0, Scan { acc, found: false, resolved: false });
    if st.found && !st.resolved && h != a {
        add_names(st.acc, prev_follow(prev, h))
    } else {
        st.acc
    }
}

/// `acc` once the first `m` alternatives of production `h` are scanned.
pub open spec fn follow_alts(
    g: GrammarView,
    fs: Seq<Seq<Seq<char>>>,
    prev: Seq<Seq<Seq<char>>>,
    a: int,
    h: int,
    m: int,
    acc: Seq<Seq<char>>,
) -> Seq<Seq<char>>
    decreases m,
{
    if m <= 0 {
        acc
    } else {
        follow_alt(g, fs, prev, a, h, g.bodies[h][m - 1], follow_alts(g, fs, prev, a, h, m - 1, acc))
    }
}

/// FOLLOW of `a` from the first `k` productions.
pub open spec fn follow_heads(
    g: GrammarView,
    fs: Seq<Seq<Seq<char>>>,
    prev: Seq<Seq<Seq<char>>>,
    a: int,
    k: int,
) -> Seq<Seq<char>>
    decreases k,
{
    if k <= 0 {
        Seq::empty()
    } else {
        follow_alts(
            g,
            fs,
            prev,
            a,
            k - 1,
            g.bodies[k - 1].len() as int,
            follow_heads(g, fs, prev, a, k - 1),
        )
    }
}

/// The FOLLOW sets of the first `i` productions, each computed from FIRST and
/// from those before it.
pub open spec fn follow_upto(g: GrammarView, fs: Seq<Seq<Seq<char>>>, i: int) -> Seq<
    Seq<Seq<char>>,
>
    decreases i,
{
    if i <= 0 {
        Seq::empty()
    } else {
        let prev = follow_upto(g, fs, i - 1);
        prev.push(follow_heads(g, fs, prev, i - 1, g.heads.len() as int))
    }
}

pub open spec fn follow_sets(g: GrammarView, fs: Seq<Seq<Seq<char>>>) -> Seq<Seq<Seq<char>>> {
    follow_upto(g, fs, g.heads.len() as int)
}

fn scan(
    g: &Grammars,
    first: &Vec<IndexSet<String>>,
    prev: &Vec<IndexSet<String>>,
    a: usize,
    h: usize,
    alt: &Vec<NodeType>,
    acc: &mut IndexSet<String>,
) -> (r: (bool, bool))
    requires
        g@.wf(),
        first@.len() == g@.heads.len(),
        a < g@.heads.len(),
    ensures
        scan_alt(
            g@,
            sets_view(first@),
            sets_view(prev@),
            a as int,
            h as int,
            alt_view(alt@),
            0,
            Scan { acc: names_in(*old(acc)), found: false, resolved: false },
        ) == (Scan { acc: names_in(*final(acc)), found: r.0, resolved: r.1 }),
{
    let ghost fs = sets_view(first@);
    let ghost pv = sets_view(prev@);
    let ghost av = alt_view(alt@);
    let ghost start = Scan { acc: names_in(*acc), found: false, resolved: false };
    let mut found = false;
    let mut resolved = false;
    let mut pos: usize = 0;
    while pos < alt.len()
        invariant
            g@.wf(),
            first@.len() == g@.heads.len(),
            a < g@.heads.len(),
            fs == sets_view(first@),
            pv == sets_view(prev@),
            av == alt_view(alt@),
            start == (Scan { acc: names_in(*old(acc)), found: false, resolved: false }),
            pos <= alt@.len(),
            scan_alt(g@, fs, pv, a as int, h as int, av, 0, start) == scan_alt(
                g@,
                fs,
                pv,
                a as int,
                h as int,
                av,
                pos as int,
                Scan { acc: names_in(*acc), found, resolved },
            ),
        decreases alt@.len() - pos,
    {
        assert(av[pos as int] == alt[pos as int]@);
        match &alt[pos] {
            NodeType::Token { name } => {
                if !crate::tokenizer::is_epsilon_name(name.as_str()) {
                    let is_eof = same_text(name.as_str(), "$");
                    proof {
                        reveal_strlit("$");
                        assert("$"@ =~= eof_name());
                    }
                    if (found && !is_eof) || (h == a && pos == alt.len() - 1 && alt.len() != 1) {
                        let ghost st = Scan { acc: names_in(*acc), found, resolved };
                        add_to(acc, name.clone());
                        assert(scan_alt(g@, fs, pv, a as int, h as int, av, pos as int, st) == Scan {
                            acc: names_in(*acc),
                            found,
                            resolved: true,
                        });
                        return (found, true);
                    }
                }
            },
            NodeType::Grammar { name } => {
                if same_text(name.as_str(), g.head(a).as_str()) {
                    found = true;
                } else if found {
                    resolved = true;
                    match g.position(name.as_str()) {
                        Some(x) => {
                            proof {
                                reveal_strlit("epsilon");
                                assert("epsilon"@ =~= epsilon_name());
                            }
                            add_all(acc, &first[x], Some("epsilon"));
                            if has_epsilon(g.alternatives(x)) {
                                if h < prev.len() {
                                    add_all(acc, &prev[h], None);
                                }
                            }
                        },
                        None => {},
                    }
                }
            },
        }
        pos = pos + 1;
    }
    (found, resolved)
}

/// The FOLLOW set of every production, at the same positions, from the FIRST
/// sets `first`.
pub fn build_follow(g: &Grammars, first: &Vec<IndexSet<String>>) -> (r: Vec<IndexSet<String>>)
    requires
        g@.wf(),
        first@.len() == g@.heads.len(),
    ensures
        sets_view(r@) == follow_sets(g@, sets_view(first@)),
        r@.len() == g@.heads.len(),
{
    let ghost fs = sets_view(first@);
    let n = g.len();
    let mut follow: Vec<IndexSet<String>> = Vec::new();
    let mut a: usize = 0;
    while a < n
        invariant
            g@.wf(),
            n == g@.heads.len(),
            first@.len() == n,
            fs == sets_view(first@),
            a <= n,
            follow@.len() == a,
            sets_view(follow@) == follow_upto(g@, fs, a as int),
        decreases n - a,
    {
        let ghost pv = sets_view(follow@);
        let mut acc = new_names();
        let mut h: usize = 0;
        while h < n
            invariant
                g@.wf(),
                n == g@.heads.len(),
                first@.len() == n,
                fs == sets_view(first@),
                pv == sets_view(follow@),
                a < n,
                h <= n,
                names_in(acc) == follow_heads(g@, fs, pv, a as int, h as int),
            decreases n - h,
        {
            let alts = g.alternatives(h);
            let mut m: usize = 0;
            while m < alts.len()
                invariant
                    g@.wf(),
                    n == g@.heads.len(),
                    first@.len() == n,
                    fs == sets_view(first@),
                    pv == sets_view(follow@),
                    a < n,
                    h < n,
                    alts_view(alts@) == g@.bodies[h as int],
                    m <= alts@.len(),
                    names_in(acc) == follow_alts(
                        g@,
                        fs,
                        pv,
                        a as int,
                        h as int,
                        m as int,
                        follow_heads(g@, fs, pv, a as int, h as int),
                    ),
                decreases alts@.len() - m,
            {
                let alt = &alts[m];
                assert(alt_view(alt@) == g@.bodies[h as int][m as int]);
                let (found, resolved) = scan(g, first, &follow, a, h, alt, &mut acc);
                if found && !resolved && h != a {
                    if h < follow.len() {
                        add_all(&mut acc, &follow[h], None);
                    }
                }
                m = m + 1;
            }
            h = h + 1;
        }
        let ghost before = follow@;
        follow.push(acc);
        assert(sets_view(follow@) =~= sets_view(before).push(names_in(acc)));
        a = a + 1;
    }
    follow
}

} // verus!
