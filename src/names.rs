//! Insertion-ordered sets of names, kept in `indexmap::IndexSet`.
use indexmap::IndexSet;
use vstd::prelude::*;

verus! {

#[verifier::external_type_specification]
#[verifier::external_body]
#[verifier::reject_recursive_types(T)]
#[verifier::reject_recursive_types(S)]
pub struct ExIndexSet<T, S>(IndexSet<T, S>);

/// The names that an ordered set holds, in insertion order.
pub uninterp spec fn names_in(s: IndexSet<String>) -> Seq<Seq<char>>;

/// Relies on `IndexSet::new`: a new set holds nothing.
#[verifier::external_body]
pub(crate) fn new_names() -> (r: IndexSet<String>)
    ensures
        names_in(r) == Seq::<Seq<char>>::empty(),
{
    IndexSet::new()
}

/// Relies on `IndexSet::len`: the number of items held.
#[verifier::external_body]
pub(crate) fn names_len(s: &IndexSet<String>) -> (r: usize)
    ensures
        r == names_in(*s).len(),
{
    s.len()
}

/// Relies on `IndexSet`'s `Index<usize>`: the item at a position below the length.
#[verifier::external_body]
pub(crate) fn name_at(s: &IndexSet<String>, i: usize) -> (r: &String)
    requires
        i < names_in(*s).len(),
    ensures
        r@ == names_in(*s)[i as int],
{
    &s[i]
}

/// Relies on `IndexSet::get_index_of`: the position of the item equal to `x`,
/// if there is one.
#[verifier::external_body]
pub(crate) fn name_position(s: &IndexSet<String>, x: &str) -> (r: Option<usize>)
    ensures
        match r {
            Some(i) => i < names_in(*s).len() && names_in(*s)[i as int] == x@,
            None => !names_in(*s).contains(x@),
        },
{
    s.get_index_of(x)
}

/// Relies on `IndexSet::insert_full`: an item already held leaves the set as it
/// was and gives its position; a new one goes to the end.
#[verifier::external_body]
pub(crate) fn insert_name(s: &mut IndexSet<String>, x: String) -> (r: (usize, bool))
    ensures
        names_in(*old(s)).contains(x@) ==> {
            &&& names_in(*final(s)) == names_in(*old(s))
            &&& !r.1
            &&& r.0 < names_in(*old(s)).len()
            &&& names_in(*old(s))[r.0 as int] == x@
        },
        !names_in(*old(s)).contains(x@) ==> {
            &&& names_in(*final(s)) == names_in(*old(s)).push(x@)
            &&& r.1
            &&& r.0 == names_in(*old(s)).len()
        },
{
    s.insert_full(x)
}

/// Adds `x` unless it is already held.
pub open spec fn add_name(s: Seq<Seq<char>>, x: Seq<char>) -> Seq<Seq<char>> {
    if s.contains(x) {
        s
    } else {
        s.push(x)
    }
}

/// Adds each of `xs` in turn.
pub open spec fn add_names(s: Seq<Seq<char>>, xs: Seq<Seq<char>>) -> Seq<Seq<char>>
    decreases xs.len(),
{
    if xs.len() == 0 {
        s
    } else {
        add_name(add_names(s, xs.drop_last()), xs.last())
    }
}

/// Adds `x` to the set unless it is already there.
pub(crate) fn add_to(s: &mut IndexSet<String>, x: String)
    ensures
        names_in(*final(s)) == add_name(names_in(*old(s)), x@),
{
    insert_name(s, x);
}

/// Adds each item of `xs` in turn, skipping those equal to `skip` when it is given.
pub(crate) fn add_all(s: &mut IndexSet<String>, xs: &IndexSet<String>, skip: Option<&str>)
    ensures
        names_in(*final(s)) == add_names(
            names_in(*old(s)),
            match skip {
                Some(w) => without(names_in(*xs), w@),
                None => names_in(*xs),
            },
        ),
{
    let ghost src = match skip {
        Some(w) => without(names_in(*xs), w@),
        None => names_in(*xs),
    };
    let n = names_len(xs);
    let mut j: usize = 0;
    while j < n
        invariant
            n == names_in(*xs).len(),
            j <= n,
            src == match skip {
                Some(w) => without(names_in(*xs), w@),
                None => names_in(*xs),
            },
            names_in(*s) == add_names(
                names_in(*old(s)),
                match skip {
                    Some(w) => without(names_in(*xs).take(j as int), w@),
                    None => names_in(*xs).take(j as int),
                },
            ),
        decreases n - j,
    {
        let x = name_at(xs, j);
        let ghost taken = names_in(*xs).take(j as int);
        assert(names_in(*xs).take(j + 1) =~= taken.push(x@));
        let keep = match skip {
            Some(w) => !crate::tokenizer::same_text(x.as_str(), w),
            None => true,
        };
        if keep {
            add_to(s, x.clone());
        }
        proof {
            if let Some(w) = skip {
                lemma_without_push(taken, x@, w@);
                if x@ != w@ {
                    assert(without(taken.push(x@), w@).drop_last() =~= without(taken, w@));
                }
            } else {
                assert(taken.push(x@).drop_last() =~= taken);
            }
        }
        j = j + 1;
    }
    assert(names_in(*xs).take(n as int) =~= names_in(*xs));
}

/// The items of `xs` other than `w`, in order.
pub open spec fn without(xs: Seq<Seq<char>>, w: Seq<char>) -> Seq<Seq<char>> {
    xs.filter(|x: Seq<char>| x != w)
}

pub proof fn lemma_without_push(xs: Seq<Seq<char>>, x: Seq<char>, w: Seq<char>)
    ensures
        x == w ==> without(xs.push(x), w) == without(xs, w),
        x != w ==> without(xs.push(x), w) == without(xs, w).push(x),
{
    reveal(Seq::filter);
    assert(xs.push(x).drop_last() =~= xs);
}

} // verus!
