//! The pattern store and the atom-greedy tokenizer.
use crate::text::{
    as_ints, chars_of, find, find_char, line_ranges, lines, piece, split, split_ranges, trim, trimmed,
    within,
};
use regex::Regex;
use vstd::prelude::*;

verus! {

#[verifier::external_type_specification]
#[verifier::external_body]
pub struct ExRegex(Regex);

#[verifier::external_type_specification]
#[verifier::external_body]
pub struct ExRegexError(regex::Error);

/// Whether `regex` accepts the pattern text.
pub uninterp spec fn regex_compiles(source: Seq<char>) -> bool;

/// Whether the regular expression written `source` matches somewhere in `text`.
pub uninterp spec fn regex_accepts(source: Seq<char>, text: Seq<char>) -> bool;

/// Whether `char::is_alphanumeric` holds of `c`.
pub uninterp spec fn alphanumeric(c: char) -> bool;

/// Relies on `Regex::new`: it succeeds exactly on the patterns that the crate
/// accepts, the empty pattern among them.
#[verifier::external_body]
fn compile(source: &str) -> (r: Result<Regex, regex::Error>)
    ensures
        r is Ok <==> regex_compiles(source@),
        source@.len() == 0 ==> r is Ok,
{
    Regex::new(source)
}

/// Relies on `char::is_alphanumeric`.
#[verifier::external_body]
fn is_alphanumeric(c: char) -> (r: bool)
    ensures
        r == alphanumeric(c),
{
    c.is_alphanumeric()
}

/// The name of the pattern that stands for the empty alternative.
pub open spec fn epsilon_name() -> Seq<char> {
    seq!['e', 'p', 's', 'i', 'l', 'o', 'n']
}

/// Whether two strings hold the same characters.
pub fn same_text(a: &str, b: &str) -> (r: bool)
    ensures
        r == (a@ == b@),
{
    let n = a.unicode_len();
    if n != b.unicode_len() {
        return false;
    }
    let mut i: usize = 0;
    while i < n
        invariant
            n == a@.len() == b@.len(),
            i <= n,
            a@.subrange(0, i as int) == b@.subrange(0, i as int),
        decreases n - i,
    {
        if a.get_char(i) != b.get_char(i) {
            return false;
        }
        assert(a@.subrange(0, i + 1) =~= a@.subrange(0, i as int).push(a@[i as int]));
        assert(b@.subrange(0, i + 1) =~= b@.subrange(0, i as int).push(b@[i as int]));
        i = i + 1;
    }
    assert(a@ =~= a@.subrange(0, n as int));
    assert(b@ =~= b@.subrange(0, n as int));
    true
}

pub fn is_epsilon_name(s: &str) -> (r: bool)
    ensures
        r == (s@ == epsilon_name()),
{
    proof {
        reveal_strlit("epsilon");
    }
    assert("epsilon"@ =~= epsilon_name());
    same_text(s, "epsilon")
}

/// What a pattern is: its name and the text of its regular expression.
pub ghost struct PatternView {
    pub name: Seq<char>,
    pub source: Seq<char>,
}

/// A named regular expression. Only `Pattern::new` makes one, so `regex` is
/// always compiled from `source`.
#[derive(Debug)]
pub struct Pattern {
    name: String,
    source: String,
    regex: Regex,
}

impl View for Pattern {
    type V = PatternView;

    closed spec fn view(&self) -> PatternView {
        PatternView { name: self.name@, source: self.source@ }
    }
}

impl Pattern {
    /// Compiles `source`; fails exactly where the regular expression does.
    pub fn new(name: String, source: String) -> (r: Result<Pattern, regex::Error>)
        ensures
            r is Ok <==> regex_compiles(source@),
            source@.len() == 0 ==> r is Ok,
            r matches Ok(p) ==> p@ == (PatternView { name: name@, source: source@ }),
    {
        match compile(source.as_str()) {
            Ok(regex) => Ok(Pattern { name, source, regex }),
            Err(e) => Err(e),
        }
    }

    pub fn name(&self) -> (r: &String)
        ensures
            r@ == self@.name,
    {
        &self.name
    }

    pub fn source(&self) -> (r: &String)
        ensures
            r@ == self@.source,
    {
        &self.source
    }

    /// Relies on `Regex::is_match`, on the regex compiled from `self.source`.
    #[verifier::external_body]
    fn accepts(&self, text: &str) -> (r: bool)
        ensures
            r == regex_accepts(self@.source, text@),
    {
        self.regex.is_match(text)
    }
}

/// A token: the name of the pattern that matched, the text it matched, and the
/// line and column (from 1) where that text starts.
#[derive(Debug, PartialEq, Eq)]
pub struct Token {
    pub name: String,
    pub value: String,
    pub line: usize,
    pub column: usize,
}

pub ghost struct TokenView {
    pub name: Seq<char>,
    pub value: Seq<char>,
    pub line: int,
    pub column: int,
}

impl View for Token {
    type V = TokenView;

    open spec fn view(&self) -> TokenView {
        TokenView {
            name: self.name@,
            value: self.value@,
            line: self.line as int,
            column: self.column as int,
        }
    }
}

impl Token {
    /// The token written `name=value`.
    pub fn to_text(&self) -> (r: String)
        ensures
            r@ == self.name@ + seq!['='] + self.value@,
    {
        proof {
            reveal_strlit("=");
        }
        let r = self.name.clone().concat("=");
        r.concat(self.value.as_str())
    }
}

/// An atom of the input: its text, where it starts (line and column from 1),
/// and its position among the input's characters.
#[derive(Debug, PartialEq, Eq)]
pub struct Body {
    pub value: String,
    pub line: usize,
    pub column: usize,
    pub start: usize,
}

/// The characters that separate atoms and are dropped.
pub open spec fn is_break(c: char) -> bool {
    c == ' ' || c == '\t' || c == '\r' || c == '\n'
}

/// The end of the run of alphanumeric characters from `i`.
pub open spec fn run_end(t: Seq<char>, i: int) -> int
    decreases t.len() - i,
{
    if i < 0 || i >= t.len() || is_break(t[i]) || !alphanumeric(t[i]) {
        i
    } else {
        run_end(t, i + 1)
    }
}

/// The atoms of `t` from position `i`, as ranges: each maximal run of
/// alphanumeric characters, and each other character that is no break.
pub open spec fn atom_spans(t: Seq<char>, i: int) -> Seq<(int, int)>
    decreases t.len() - i,
{
    if i < 0 || i >= t.len() {
        Seq::empty()
    } else if is_break(t[i]) {
        atom_spans(t, i + 1)
    } else if !alphanumeric(t[i]) {
        seq![(i, i + 1)] + atom_spans(t, i + 1)
    } else {
        let e = run_end(t, i + 1);
        if e <= i || e > t.len() {
            Seq::empty()
        } else {
            seq![(i, e)] + atom_spans(t, e)
        }
    }
}

/// Each atom is a nonempty range of positions of `t`.
pub proof fn lemma_atom_spans_within(t: Seq<char>, i: int)
    ensures
        forall|k: int|
            0 <= k < atom_spans(t, i).len() ==> 0 <= (#[trigger] atom_spans(t, i)[k]).0 < atom_spans(
                t,
                i,
            )[k].1 <= t.len(),
    decreases t.len() - i,
{
    if 0 <= i < t.len() {
        if is_break(t[i]) {
            lemma_atom_spans_within(t, i + 1);
            assert(atom_spans(t, i) == atom_spans(t, i + 1));
        } else if !alphanumeric(t[i]) {
            lemma_atom_spans_within(t, i + 1);
            let rest = atom_spans(t, i + 1);
            assert(atom_spans(t, i) == seq![(i, i + 1)] + rest);
            assert forall|k: int| 0 <= k < atom_spans(t, i).len() implies 0 <= (#[trigger] atom_spans(t, i)[k]).0 < atom_spans(t, i)[k].1 <= t.len() by {
                if k > 0 {
                    assert(atom_spans(t, i)[k] == rest[k - 1]);
                }
            }
        } else {
            let e = run_end(t, i + 1);
            if e > i && e <= t.len() {
                lemma_atom_spans_within(t, e);
                let rest = atom_spans(t, e);
                assert(atom_spans(t, i) == seq![(i, e)] + rest);
                assert forall|k: int| 0 <= k < atom_spans(t, i).len() implies 0 <= (#[trigger] atom_spans(t, i)[k]).0 < atom_spans(t, i)[k].1 <= t.len() by {
                    if k > 0 {
                        assert(atom_spans(t, i)[k] == rest[k - 1]);
                    }
                }
            } else {
                assert(atom_spans(t, i).len() == 0);
            }
        }
    } else {
        assert(atom_spans(t, i).len() == 0);
    }
}

/// The line of position `k`: one more than the line feeds before it.
pub open spec fn line_at(t: Seq<char>, k: int) -> int
    decreases k,
{
    if k <= 0 {
        1
    } else if t[k - 1] == '\n' {
        line_at(t, k - 1) + 1
    } else {
        line_at(t, k - 1)
    }
}

/// The column of position `k`: its distance from the last line feed or
/// carriage return before it, or from the start, counting from 1.
pub open spec fn column_at(t: Seq<char>, k: int) -> int
    decreases k,
{
    if k <= 0 {
        1
    } else if t[k - 1] == '\n' || t[k - 1] == '\r' {
        1
    } else {
        column_at(t, k - 1) + 1
    }
}

pub proof fn lemma_line_column_bounds(t: Seq<char>, k: int)
    requires
        0 <= k,
    ensures
        1 <= line_at(t, k) <= k + 1,
        1 <= column_at(t, k) <= k + 1,
    decreases k,
{
    if k > 0 {
        lemma_line_column_bounds(t, k - 1);
    }
}

/// Whether `b` is the atom of `t` at range `s`.
pub open spec fn atom_is(t: Seq<char>, s: (int, int), b: Body) -> bool {
    &&& b.start as int == s.0
    &&& 0 <= s.0 < s.1 <= t.len()
    &&& b.value@ == t.subrange(s.0, s.1)
    &&& b.line as int == line_at(t, s.0)
    &&& b.column as int == column_at(t, s.0)
}

pub open spec fn atoms_are(t: Seq<char>, spans: Seq<(int, int)>, r: Seq<Body>) -> bool {
    &&& r.len() == spans.len()
    &&& forall|k: int| 0 <= k < r.len() ==> atom_is(t, #[trigger] spans[k], r[k])
}

/// Splits `text` into atoms, keeping each non-alphanumeric character that is
/// not a break as an atom of its own.
pub fn split_keep(text: &str) -> (r: Vec<Body>)
    requires
        text@.len() < usize::MAX,
    ensures
        atoms_are(text@, atom_spans(text@, 0), r@),
{
    let t = chars_of(text);
    let n = t.len();
    let mut r: Vec<Body> = Vec::new();
    let mut i: usize = 0;
    let mut line: usize = 1;
    let mut column: usize = 1;
    let ghost mut done: Seq<(int, int)> = Seq::empty();
    while i < n
        invariant
            t@ == text@,
            n == t@.len(),
            n < usize::MAX,
            i <= n,
            line as int == line_at(t@, i as int),
            column as int == column_at(t@, i as int),
            atoms_are(t@, done, r@),
            atom_spans(t@, 0) =~= done + atom_spans(t@, i as int),
        decreases n - i,
    {
        let c = t[i];
        proof {
            lemma_line_column_bounds(t@, i + 1);
        }
        if c == ' ' || c == '\t' || c == '\r' || c == '\n' {
            if c == '\n' {
                line = line + 1;
                column = 1;
            } else if c == '\r' {
                column = 1;
            } else {
                column = column + 1;
            }
            i = i + 1;
        } else if !is_alphanumeric(c) {
            let b = Body { value: piece(text, i, i + 1), line, column, start: i };
            r.push(b);
            proof {
                done = done.push((i as int, i + 1));
                assert(atoms_are(t@, done, r@));
            }
            column = column + 1;
            i = i + 1;
        } else {
            let mut e = i + 1;
            while e < n && !(t[e] == ' ' || t[e] == '\t' || t[e] == '\r' || t[e] == '\n')
                && is_alphanumeric(t[e])
                invariant
                    n == t@.len(),
                    n < usize::MAX,
                    i < e <= n,
                    run_end(t@, i + 1) == run_end(t@, e as int),
                    line_at(t@, e as int) == line_at(t@, i as int),
                    column_at(t@, e as int) == column_at(t@, i as int) + (e - i),
                decreases n - e,
            {
                e = e + 1;
            }
            let b = Body { value: piece(text, i, e), line, column, start: i };
            r.push(b);
            proof {
                lemma_line_column_bounds(t@, e as int);
                done = done.push((i as int, e as int));
                assert(atoms_are(t@, done, r@));
            }
            column = column + (e - i);
            i = e;
        }
    }
    assert(done =~= atom_spans(t@, 0));
    r
}

/// The pattern store, in declaration order, which is the order of priority.
#[derive(Debug)]
pub struct Tokenizer {
    pub patterns: Vec<Pattern>,
}

pub open spec fn pattern_views(ps: Seq<Pattern>) -> Seq<PatternView> {
    ps.map_values(|p: Pattern| p@)
}

pub open spec fn token_views(ts: Seq<Token>) -> Seq<TokenView> {
    ts.map_values(|t: Token| t@)
}

/// The first pattern from position `k` on, other than epsilon, whose regular
/// expression matches `s`.
pub open spec fn first_accepting(ps: Seq<PatternView>, s: Seq<char>, k: int) -> Option<int>
    decreases ps.len() - k,
{
    if k < 0 || k >= ps.len() {
        None
    } else if ps[k].name != epsilon_name() && regex_accepts(ps[k].source, s) {
        Some(k)
    } else {
        first_accepting(ps, s, k + 1)
    }
}

/// Where the tokenizer stands between two atoms: the tokens so far, the atoms
/// gathered since the last token (their text, and where the first one
/// started), and the first of those atoms, empty when there are none.
pub ghost struct LexState {
    pub tokens: Seq<TokenView>,
    pub lookup: Option<(Seq<char>, int, int)>,
    pub unmatched: Seq<char>,
}

/// An atom as text, line and column.
pub open spec fn atom_view(t: Seq<char>, s: (int, int)) -> (Seq<char>, int, int) {
    (t.subrange(s.0, s.1), line_at(t, s.0), column_at(t, s.0))
}

pub open spec fn atom_views(t: Seq<char>) -> Seq<(Seq<char>, int, int)> {
    atom_spans(t, 0).map_values(|s: (int, int)| atom_view(t, s))
}

/// One atom: add it to what was gathered; where a pattern then matches the
/// whole, that becomes a token.
pub open spec fn lex_step(ps: Seq<PatternView>, st: LexState, a: (Seq<char>, int, int)) -> LexState {
    let cur = match st.lookup {
        Some(b) => (b.0 + a.0, b.1, b.2),
        None => a,
    };
    match first_accepting(ps, cur.0, 0) {
        Some(k) => LexState {
            tokens: st.tokens.push(
                TokenView { name: ps[k].name, value: cur.0, line: cur.1, column: cur.2 },
            ),
            lookup: None,
            unmatched: Seq::empty(),
        },
        None => LexState {
            tokens: st.tokens,
            lookup: Some(cur),
            unmatched: if st.unmatched.len() == 0 {
                a.0
            } else {
                st.unmatched
            },
        },
    }
}

pub open spec fn lex_run(
    ps: Seq<PatternView>,
    st: LexState,
    atoms: Seq<(Seq<char>, int, int)>,
) -> LexState
    decreases atoms.len(),
{
    if atoms.len() == 0 {
        st
    } else {
        lex_run(ps, lex_step(ps, st, atoms[0]), atoms.drop_first())
    }
}

pub open spec fn lex_start() -> LexState {
    LexState { tokens: Seq::empty(), lookup: None, unmatched: Seq::empty() }
}

/// The tokens of `t`, or the first atom that began no token.
pub open spec fn tokenize(ps: Seq<PatternView>, t: Seq<char>) -> Result<
    Seq<TokenView>,
    Seq<char>,
> {
    let st = lex_run(ps, lex_start(), atom_views(t));
    if st.unmatched.len() > 0 {
        Err(st.unmatched)
    } else {
        Ok(st.tokens)
    }
}

pub open spec fn unknown_token_message(u: Seq<char>) -> Seq<char> {
    "Unknown token "@ + u + "."@
}

pub open spec fn lookup_view(l: Option<(String, usize, usize)>) -> Option<(Seq<char>, int, int)> {
    match l {
        Some(b) => Some((b.0@, b.1 as int, b.2 as int)),
        None => None,
    }
}

pub open spec fn epsilon_view() -> PatternView {
    PatternView { name: epsilon_name(), source: Seq::empty() }
}

/// One `|`-separated part of a declaration, trimmed and anchored at both ends.
pub open spec fn anchor(t: Seq<char>, p: (int, int)) -> Seq<char> {
    let q = trimmed(t, p.0, p.1);
    "^"@ + t.subrange(q.0, q.1) + "$"@
}

/// The anchored parts, joined again with `|`.
pub open spec fn anchored(t: Seq<char>, parts: Seq<(int, int)>) -> Seq<char>
    decreases parts.len(),
{
    if parts.len() == 0 {
        Seq::empty()
    } else if parts.len() == 1 {
        anchor(t, parts[0])
    } else {
        anchored(t, parts.drop_last()) + "|"@ + anchor(t, parts.last())
    }
}

/// Where the `=` of the declaration on line `l` stands: the first one after
/// the line's first character; the line's end where there is none.
pub open spec fn decl_eq(t: Seq<char>, l: (int, int)) -> int {
    find_char(t, '=', l.0 + 1, l.1)
}

pub open spec fn decl_name(t: Seq<char>, l: (int, int)) -> Seq<char> {
    let q = trimmed(t, l.0, decl_eq(t, l));
    t.subrange(q.0, q.1)
}

pub open spec fn decl_source(t: Seq<char>, l: (int, int)) -> Seq<char> {
    anchored(t, split_ranges(t, '|', decl_eq(t, l) + 1, l.1))
}

pub open spec fn bad_line_message() -> Seq<char> {
    "The file must contain token declarations with NAME = PATTERN format."@
}

pub open spec fn bad_regex_message(name: Seq<char>, source: Seq<char>) -> Seq<char> {
    "Unable to parse "@ + name + " token - "@ + source + " is an incorrect regular expression."@
}

/// The patterns declared on `lines`, after those in `acc`, then epsilon; or
/// the error of the first line that is no declaration or whose regular
/// expression does not compile.
pub open spec fn load_patterns(t: Seq<char>, lines: Seq<(int, int)>, acc: Seq<PatternView>) -> Result<
    Seq<PatternView>,
    Seq<char>,
>
    decreases lines.len(),
{
    if lines.len() == 0 {
        Ok(acc.push(epsilon_view()))
    } else {
        let l = lines[0];
        if decl_eq(t, l) >= l.1 {
            Err(bad_line_message())
        } else if !regex_compiles(decl_source(t, l)) {
            Err(bad_regex_message(decl_name(t, l), decl_source(t, l)))
        } else {
            load_patterns(
                t,
                lines.drop_first(),
                acc.push(PatternView { name: decl_name(t, l), source: decl_source(t, l) }),
            )
        }
    }
}

/// The anchored regular expression of the parts of a declaration.
fn anchored_source(text: &str, t: &Vec<char>, parts: &Vec<(usize, usize)>) -> (r: String)
    requires
        t@ == text@,
        within(parts@, 0, t@.len() as int),
    ensures
        r@ == anchored(t@, as_ints(parts@)),
{
    proof {
        reveal_strlit("^");
        reveal_strlit("$");
        reveal_strlit("|");
    }
    let mut r = String::new();
    let mut m: usize = 0;
    while m < parts.len()
        invariant
            t@ == text@,
            within(parts@, 0, t@.len() as int),
            m <= parts@.len(),
            r@ == anchored(t@, as_ints(parts@).take(m as int)),
        decreases parts@.len() - m,
    {
        let (a, b) = parts[m];
        let (lo, hi) = trim(t, a, b);
        if m > 0 {
            r.append("|");
        }
        r.append("^");
        r.append(piece(text, lo, hi).as_str());
        r.append("$");
        assert(as_ints(parts@).take(m + 1).drop_last() =~= as_ints(parts@).take(m as int));
        assert(as_ints(parts@).take(m + 1).last() == (a as int, b as int));
        m = m + 1;
    }
    assert(as_ints(parts@).take(m as int) =~= as_ints(parts@));
    r
}

impl Tokenizer {
    /// The synthetic pattern of the empty alternative.
    pub fn epsilon() -> (r: Pattern)
        ensures
            r@ == epsilon_view(),
    {
        let name = String::from_str("epsilon");
        proof {
            reveal_strlit("epsilon");
            assert(name@ =~= epsilon_name());
        }
        Pattern::new(name, String::new()).unwrap()
    }

    /// Reads a lexical specification: one `NAME = PATTERN` declaration per
    /// line, where `PATTERN` is `|`-separated alternatives, each anchored at
    /// both ends. The epsilon pattern comes last.
    pub fn from_text(content: &str) -> (r: Result<Tokenizer, String>)
        ensures
            match load_patterns(content@, line_ranges(content@, 0), Seq::empty()) {
                Ok(ps) => r matches Ok(tk) && pattern_views(tk.patterns@) == ps,
                Err(m) => r matches Err(e) && e@ == m,
            },
    {
        let ghost text = content@;
        let t = chars_of(content);
        let ls = lines(&t);
        let ghost all = line_ranges(text, 0);
        let mut patterns: Vec<Pattern> = Vec::new();
        let mut k: usize = 0;
        assert(pattern_views(patterns@) =~= Seq::<PatternView>::empty());
        assert(as_ints(ls@).subrange(0, ls@.len() as int) =~= all);
        while k < ls.len()
            invariant
                t@ == text,
                text == content@,
                as_ints(ls@) == all,
                all == line_ranges(text, 0),
                within(ls@, 0, t@.len() as int),
                k <= ls@.len(),
                load_patterns(text, all, Seq::empty()) == load_patterns(
                    text,
                    all.subrange(k as int, all.len() as int),
                    pattern_views(patterns@),
                ),
            decreases ls@.len() - k,
        {
            let (a, b) = ls[k];
            let ghost l = (a as int, b as int);
            assert(all[k as int] == l);
            assert(all.subrange(k as int, all.len() as int).drop_first() =~= all.subrange(
                k + 1,
                all.len() as int,
            ));
            let eq = if a < b {
                find(&t, '=', a + 1, b)
            } else {
                b
            };
            if eq >= b {
                proof {
                    reveal_strlit(
                        "The file must contain token declarations with NAME = PATTERN format.",
                    );
                }
                return Err(
                    String::from_str(
                        "The file must contain token declarations with NAME = PATTERN format.",
                    ),
                );
            }
            let (lo, hi) = trim(&t, a, eq);
            let name = piece(content, lo, hi);
            let parts = split(&t, '|', eq + 1, b);
            let source = anchored_source(content, &t, &parts);
            match Pattern::new(name.clone(), source.clone()) {
                Ok(p) => {
                    let ghost before = patterns@;
                    patterns.push(p);
                    assert(pattern_views(patterns@) =~= pattern_views(before).push(p@));
                },
                Err(_) => {
                    proof {
                        reveal_strlit("Unable to parse ");
                        reveal_strlit(" token - ");
                        reveal_strlit(" is an incorrect regular expression.");
                    }
                    let m = String::from_str("Unable to parse ").concat(name.as_str()).concat(
                        " token - ",
                    ).concat(source.as_str()).concat(" is an incorrect regular expression.");
                    return Err(m);
                },
            }
            k = k + 1;
        }
        assert(all.subrange(k as int, all.len() as int) =~= Seq::<(int, int)>::empty());
        let ghost before = patterns@;
        let e = Tokenizer::epsilon();
        patterns.push(e);
        assert(pattern_views(patterns@) =~= pattern_views(before).push(epsilon_view()));
        Ok(Tokenizer { patterns })
    }

    /// The position of the first pattern other than epsilon that matches `s`.
    fn first_match(&self, s: &str) -> (r: Option<usize>)
        ensures
            first_accepting(pattern_views(self.patterns@), s@, 0) == match r {
                Some(k) => Some(k as int),
                None => None::<int>,
            },
            r matches Some(k) ==> k < self.patterns@.len(),
    {
        let ghost ps = pattern_views(self.patterns@);
        let mut k: usize = 0;
        while k < self.patterns.len()
            invariant
                ps == pattern_views(self.patterns@),
                k <= self.patterns@.len(),
                first_accepting(ps, s@, 0) == first_accepting(ps, s@, k as int),
            decreases self.patterns@.len() - k,
        {
            let p = &self.patterns[k];
            if !is_epsilon_name(p.name().as_str()) && p.accepts(s) {
                return Some(k);
            }
            k = k + 1;
        }
        None
    }

    /// Splits `s` into tokens, atom by atom: each atom is added to the text
    /// gathered so far, which becomes a token as soon as a pattern matches it.
    /// Fails with the first atom that began no token.
    pub fn parse(&self, s: &str) -> (r: Result<Vec<Token>, String>)
        requires
            s@.len() < usize::MAX,
        ensures
            match tokenize(pattern_views(self.patterns@), s@) {
                Ok(ts) => r matches Ok(v) && token_views(v@) == ts,
                Err(u) => r matches Err(m) && m@ == unknown_token_message(u),
            },
    {
        let ghost ps = pattern_views(self.patterns@);
        let ghost all = atom_views(s@);
        let atoms = split_keep(s);
        let mut result: Vec<Token> = Vec::new();
        let mut lookup: Option<(String, usize, usize)> = None;
        let mut unmatched = String::new();
        let mut k: usize = 0;
        assert(token_views(result@) =~= Seq::<TokenView>::empty());
        assert(all.subrange(0, all.len() as int) =~= all);
        while k < atoms.len()
            invariant
                ps == pattern_views(self.patterns@),
                all == atom_views(s@),
                atoms_are(s@, atom_spans(s@, 0), atoms@),
                k <= atoms@.len(),
                lex_run(ps, lex_start(), all) == lex_run(
                    ps,
                    LexState {
                        tokens: token_views(result@),
                        lookup: lookup_view(lookup),
                        unmatched: unmatched@,
                    },
                    all.subrange(k as int, all.len() as int),
                ),
            decreases atoms@.len() - k,
        {
            let a = &atoms[k];
            let ghost st = LexState {
                tokens: token_views(result@),
                lookup: lookup_view(lookup),
                unmatched: unmatched@,
            };
            assert(all[k as int] == (a.value@, a.line as int, a.column as int));
            assert(all.subrange(k as int, all.len() as int).drop_first() =~= all.subrange(
                k + 1,
                all.len() as int,
            ));
            let cur: (String, usize, usize) = match lookup {
                Some(b) => (b.0.concat(a.value.as_str()), b.1, b.2),
                None => (a.value.clone(), a.line, a.column),
            };
            match self.first_match(cur.0.as_str()) {
                Some(p) => {
                    let tok = Token {
                        name: self.patterns[p].name().clone(),
                        value: cur.0,
                        line: cur.1,
                        column: cur.2,
                    };
                    let ghost before = result@;
                    result.push(tok);
                    assert(token_views(result@) =~= token_views(before).push(tok@));
                    lookup = None;
                    unmatched = String::new();
                },
                None => {
                    if unmatched.unicode_len() == 0 {
                        unmatched = a.value.clone();
                    }
                    lookup = Some(cur);
                },
            }
            k = k + 1;
        }
        assert(all.subrange(k as int, all.len() as int) =~= Seq::<(Seq<char>, int, int)>::empty());
        if unmatched.unicode_len() > 0 {
            proof {
                reveal_strlit("Unknown token ");
                reveal_strlit(".");
            }
            let m = String::from_str("Unknown token ").concat(unmatched.as_str()).concat(".");
            Err(m)
        } else {
            Ok(result)
        }
    }
}

} // verus!
