//! The LL(1) parse table: for each production, which alternative to take on
//! which terminal.
use crate::grammar::{alt_view, alts_view, is_epsilon, is_epsilon_alt, GrammarView, Grammars, NodeType, Sym};
use crate::names::{insert_name, name_position, names_in, new_names, without};
use crate::sets::sets_view;
use crate::tokenizer::epsilon_name;
use indexmap::IndexSet;
use vstd::prelude::*;

verus! {

/// The cells of one production: terminals, in the order they were first set,
/// and at the same positions the alternative chosen on each.
#[derive(Debug)]
pub struct Row {
    keys: IndexSet<String>,
    alts: Vec<usize>,
}

pub ghost struct RowView {
    pub keys: Seq<Seq<char>>,
    pub alts: Seq<int>,
}

impl View for Row {
    type V = RowView;

    closed spec fn view(&self) -> RowView {
        RowView { keys: names_in(self.keys), alts: self.alts@.map_values(|j: usize| j as int) }
    }
}

impl RowView {
    /// Each terminal has at most one cell, and each cell one alternative.
    pub open spec fn wf(self) -> bool {
        &&& self.keys.len() == self.alts.len()
        &&& self.keys.no_duplicates()
    }

    /// The alternative in the cell of terminal `t`, if it has one.
    pub open spec fn get(self, t: Seq<char>) -> Option<int> {
        if self.keys.contains(t) {
            Some(self.alts[self.keys.index_of(t)])
        } else {
            None
        }
    }

    /// Sets the cell of `t` to `j`; a cell that was set keeps its place.
    pub open spec fn set(self, t: Seq<char>, j: int) -> RowView {
        if self.keys.contains(t) {
            RowView { keys: self.keys, alts: self.alts.update(self.keys.index_of(t), j) }
        } else {
            RowView { keys: self.keys.push(t), alts: self.alts.push(j) }
        }
    }

    /// Sets the cell of each of `ts` to `j`, in order.
    pub open spec fn set_all(self, ts: Seq<Seq<char>>, j: int) -> RowView
        decreases ts.len(),
    {
        if ts.len() == 0 {
            self
        } else {
            self.set_all(ts.drop_last(), j).set(ts.last(), j)
        }
    }
}

pub open spec fn empty_row() -> RowView {
    RowView { keys: Seq::empty(), alts: Seq::empty() }
}

/// The cells that alternative `j`, written `alt`, sets: the empty alternative
/// on each terminal of FOLLOW; one that starts with a terminal on that
/// terminal; any other on each terminal of FIRST. `epsilon` never keys a cell.
pub open spec fn row_for_alt(
    r: RowView,
    alt: Seq<Sym>,
    j: int,
    first: Seq<Seq<char>>,
    follow: Seq<Seq<char>>,
) -> RowView {
    if is_epsilon_alt(alt) {
        r.set_all(without(follow, epsilon_name()), j)
    } else if alt.len() > 0 && alt[0] is Term {
        let t0 = alt[0]->Term_0;
        if t0 != epsilon_name() {
            r.set(t0, j)
        } else {
            r
        }
    } else {
        r.set_all(without(first, epsilon_name()), j)
    }
}

/// The row of a production once its first `m` alternatives are entered.
pub open spec fn row_upto(
    alts: Seq<Seq<Sym>>,
    m: int,
    first: Seq<Seq<char>>,
    follow: Seq<Seq<char>>,
) -> RowView
    decreases m,
{
    if m <= 0 {
        empty_row()
    } else {
        row_for_alt(row_upto(alts, m - 1, first, follow), alts[m - 1], m - 1, first, follow)
    }
}

/// The parse table of grammar `g` with FIRST sets `fs` and FOLLOW sets `fl`.
pub open spec fn table_of(
    g: GrammarView,
    fs: Seq<Seq<Seq<char>>>,
    fl: Seq<Seq<Seq<char>>>,
) -> Seq<RowView> {
    Seq::new(
        g.heads.len(),
        |h: int| row_upto(g.bodies[h], g.bodies[h].len() as int, fs[h], fl[h]),
    )
}

/// Every cell of `r` holds an alternative below `bound`.
pub open spec fn alts_below(r: RowView, bound: int) -> bool {
    forall|k: int| 0 <= k < r.alts.len() ==> 0 <= #[trigger] r.alts[k] < bound
}

proof fn lemma_set_below(r: RowView, ts: Seq<Seq<char>>, j: int, bound: int)
    requires
        r.wf(),
        alts_below(r, bound),
        0 <= j < bound,
    ensures
        r.set_all(ts, j).wf(),
        alts_below(r.set_all(ts, j), bound),
    decreases ts.len(),
{
    if ts.len() > 0 {
        lemma_set_below(r, ts.drop_last(), j, bound);
        let q = r.set_all(ts.drop_last(), j);
        if q.keys.contains(ts.last()) {
            q.keys.index_of_first_ensures(ts.last());
        }
    }
}

/// The rows that the table builder makes are well formed, and each cell
/// names one of the production's alternatives.
pub proof fn lemma_row_upto(
    alts: Seq<Seq<Sym>>,
    m: int,
    first: Seq<Seq<char>>,
    follow: Seq<Seq<char>>,
)
    requires
        0 <= m,
    ensures
        row_upto(alts, m, first, follow).wf(),
        alts_below(row_upto(alts, m, first, follow), m),
    decreases m,
{
    if m > 0 {
        lemma_row_upto(alts, m - 1, first, follow);
        let r = row_upto(alts, m - 1, first, follow);
        let alt = alts[m - 1];
        lemma_set_below(r, without(follow, epsilon_name()), m - 1, m);
        lemma_set_below(r, without(first, epsilon_name()), m - 1, m);
        if alt.len() > 0 && alt[0] is Term {
            lemma_set_below(r, seq![alt[0]->Term_0], m - 1, m);
            assert(seq![alt[0]->Term_0].drop_last() =~= Seq::<Seq<char>>::empty());
        }
    }
}

impl Row {
    fn new() -> (r: Row)
        ensures
            r@ == empty_row(),
            r@.wf(),
    {
        let r = Row { keys: new_names(), alts: Vec::new() };
        assert(r@.alts =~= Seq::<int>::empty());
        r
    }

    fn set(&mut self, t: String, j: usize)
        requires
            old(self)@.wf(),
        ensures
            final(self)@ == old(self)@.set(t@, j as int),
            final(self)@.wf(),
    {
        let ghost before = self@;
        let (i, fresh) = insert_name(&mut self.keys, t);
        if fresh {
            self.alts.push(j);
            assert(self@.alts =~= before.alts.push(j as int));
        } else {
            self.alts.set(i, j);
            assert(self@.alts =~= before.alts.update(i as int, j as int));
        }
    }

    fn set_all(&mut self, ts: &IndexSet<String>, j: usize)
        requires
            old(self)@.wf(),
        ensures
            final(self)@ == old(self)@.set_all(without(names_in(*ts), epsilon_name()), j as int),
            final(self)@.wf(),
    {
        let n = crate::names::names_len(ts);
        let mut k: usize = 0;
        while k < n
            invariant
                n == names_in(*ts).len(),
                k <= n,
                self@.wf(),
                self@ == old(self)@.set_all(
                    without(names_in(*ts).take(k as int), epsilon_name()),
                    j as int,
                ),
            decreases n - k,
        {
            let t = crate::names::name_at(ts, k);
            let ghost taken = names_in(*ts).take(k as int);
            assert(names_in(*ts).take(k + 1) =~= taken.push(t@));
            proof {
                crate::names::lemma_without_push(taken, t@, epsilon_name());
            }
            if !crate::tokenizer::is_epsilon_name(t.as_str()) {
                self.set(t.clone(), j);
                assert(without(taken.push(t@), epsilon_name()).drop_last() =~= without(
                    taken,
                    epsilon_name(),
                ));
            }
            k = k + 1;
        }
        assert(names_in(*ts).take(n as int) =~= names_in(*ts));
    }

    /// The terminals that have a cell, in the order they were first set.
    pub fn terminals(&self) -> (r: &IndexSet<String>)
        ensures
            names_in(*r) == self@.keys,
    {
        &self.keys
    }

    /// The alternatives at the same positions.
    pub fn choices(&self) -> (r: &Vec<usize>)
        ensures
            r@.map_values(|j: usize| j as int) == self@.alts,
    {
        &self.alts
    }

    /// The alternative in the cell of terminal `t`, if it has one.
    pub fn get(&self, t: &str) -> (r: Option<usize>)
        requires
            self@.wf(),
        ensures
            self@.get(t@) == match r {
                Some(j) => Some(j as int),
                None => None::<int>,
            },
    {
        match name_position(&self.keys, t) {
            Some(i) => {
                proof {
                    self@.keys.index_of_first_ensures(t@);
                }
                Some(self.alts[i])
            },
            None => None,
        }
    }
}

pub open spec fn rows_view(rows: Seq<Row>) -> Seq<RowView> {
    rows.map_values(|r: Row| r@)
}

/// Builds the parse table: one row per production, at the same positions.
pub fn build_parsing_table(
    g: &Grammars,
    first: &Vec<IndexSet<String>>,
    follow: &Vec<IndexSet<String>>,
) -> (r: Vec<Row>)
    requires
        g@.wf(),
        first@.len() == g@.heads.len(),
        follow@.len() == g@.heads.len(),
    ensures
        rows_view(r@) == table_of(g@, sets_view(first@), sets_view(follow@)),
        forall|h: int| 0 <= h < r@.len() ==> (#[trigger] r@[h])@.wf(),
{
    let n = g.len();
    let mut rows: Vec<Row> = Vec::new();
    let mut h: usize = 0;
    while h < n
        invariant
            g@.wf(),
            n == g@.heads.len(),
            first@.len() == n,
            follow@.len() == n,
            h <= n,
            rows_view(rows@) =~= table_of(g@, sets_view(first@), sets_view(follow@)).take(
                h as int,
            ),
            forall|k: int| 0 <= k < rows@.len() ==> (#[trigger] rows@[k])@.wf(),
        decreases n - h,
    {
        let alts = g.alternatives(h);
        let ghost fst = sets_view(first@)[h as int];
        let ghost fol = sets_view(follow@)[h as int];
        let mut row = Row::new();
        let mut m: usize = 0;
        while m < alts.len()
            invariant
                g@.wf(),
                h < n,
                n == g@.heads.len(),
                first@.len() == n,
                follow@.len() == n,
                fst == names_in(first@[h as int]),
                fol == names_in(follow@[h as int]),
                alts_view(alts@) == g@.bodies[h as int],
                m <= alts@.len(),
                row@.wf(),
                row@ == row_upto(alts_view(alts@), m as int, fst, fol),
            decreases alts@.len() - m,
        {
            let alt = &alts[m];
            assert(alt_view(alt@) == alts_view(alts@)[m as int]);
            if is_epsilon(alt) {
                row.set_all(&follow[h], m);
            } else if alt.len() > 0 && matches!(alt[0], NodeType::Token { .. }) {
                match &alt[0] {
                    NodeType::Token { name } => {
                        if !crate::tokenizer::is_epsilon_name(name.as_str()) {
                            row.set(name.clone(), m);
                        }
                    },
                    NodeType::Grammar { .. } => {},
                }
            } else {
                row.set_all(&first[h], m);
            }
            m = m + 1;
        }
        let ghost before = rows@;
        rows.push(row);
        assert(rows_view(rows@) =~= rows_view(before).push(row@));
        h = h + 1;
    }
    rows
}

} // verus!
