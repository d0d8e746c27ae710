//! The query language.
//!
//! A query is one or more expressions separated by `|`:
//!
//! ```text
//! query    := expr ("|" expr)*
//! expr     := "@flat" "(" ")"
//!           | "@path" "(" "`" step+ "`" ")"          step := ("//" | "/") tag
//!           | "@attr" "(" quoted ("," quoted)? ")"
//!           | "@id" "(" quoted ("," ("0" | "1"))? ")"
//!           | "@class" "(" quoted ("," ("0" | "1"))? ")"
//!           | "@child" "(" "-"? digit+ ")"
//!           | "#text" "(" ")" | "#trim" "(" ")"
//!           | "#trimPrefix" "(" quoted ")" | "#trimSuffix" "(" quoted ")"
//!           | "#attr" "(" quoted ")"
//! quoted   := "`" (any character but "`")+ "`"
//! ```
//!
//! Spaces, tabs and line breaks may stand between tokens, but not inside
//! backquotes or numbers.  A tag is a non-empty run without `/`.  For `@id` and
//! `@class` a trailing `0` asks for comparison up to ASCII case and `1` (the
//! default) for exact comparison.  `@child(n)` picks the n-th child counting
//! from 0; `@child(-n)` the n-th from the end counting from 1, and `-0` is `0`.
use vstd::prelude::*;
use crate::chars::{chars_of, sub_string};
use crate::html::dom::opt_str_view;
use super::attr::{AttrSelector, ClassSelector, ExtractAttrSelector, IDSelector};
use super::path::{FlatSelector, Path, PathSelector};
use super::text::{NthChildSelector, TextSelector, TrimPrefixSelector, TrimSelector, TrimSuffixSelector};
use super::SelectorEnum;

verus! {

/// What the parser expected where it stopped.
#[derive(Debug, Clone, Copy, PartialEq, Eq, Structural)]
pub enum Rule {
    EOI,
    Pipe,
    FlatExpr,
    PathExpr,
    AttrExpr,
    IdExpr,
    ClassExpr,
    HelperExpr,
    OpenParen,
    CloseParen,
    Comma,
    Quoted,
    PathStep,
    Tag,
    CaseSensitiveOpt,
    ChildNum,
}

/// A query that does not follow the grammar: where it stopped (line and
/// column, both from 1) and what would have been accepted there.
#[derive(Debug, PartialEq, Eq)]
pub struct ParseError {
    pub line: usize,
    pub col: usize,
    pub expected: Vec<Rule>,
}

/// The plain content of a selector.
pub enum SelModel {
    Path(Seq<(Path, Seq<char>)>),
    Attr(Option<Seq<char>>, Seq<char>, Seq<char>, Option<Seq<char>>),
    Class(Seq<char>, bool),
    Id(Seq<char>, bool),
    Flat,
    Text,
    Trim,
    TrimPrefix(Seq<char>),
    TrimSuffix(Seq<char>),
    NthChild(nat, bool),
    ExtractAttr(Option<Seq<char>>, Seq<char>, Seq<char>),
}

impl SelectorEnum {
    pub open spec fn model(&self) -> SelModel {
        match self {
            SelectorEnum::PathSelector(s) => SelModel::Path(
                s.paths@.map_values(|x: (Path, String)| (x.0, x.1@)),
            ),
            SelectorEnum::AttrSelector(s) => SelModel::Attr(
                opt_str_view(s.name.prefix),
                s.name.ns@,
                s.name.local@,
                opt_str_view(s.val),
            ),
            SelectorEnum::ClassSelector(s) => SelModel::Class(s.class@, s.case_sensitive),
            SelectorEnum::IDSelector(s) => SelModel::Id(s.id@, s.case_sensitive),
            SelectorEnum::FlatSelector(_) => SelModel::Flat,
            SelectorEnum::TextSelector(_) => SelModel::Text,
            SelectorEnum::TrimSelector(_) => SelModel::Trim,
            SelectorEnum::TrimPrefixSelector(s) => SelModel::TrimPrefix(s.prefix@),
            SelectorEnum::TrimSuffixSelector(s) => SelModel::TrimSuffix(s.suffix@),
            SelectorEnum::NthChildSelector(s) => SelModel::NthChild(s.n as nat, s.reversed),
            SelectorEnum::ExtractAttrSelector(s) => SelModel::ExtractAttr(
                opt_str_view(s.attr.prefix),
                s.attr.ns@,
                s.attr.local@,
            ),
        }
    }
}

pub open spec fn models(v: Seq<SelectorEnum>) -> Seq<SelModel> {
    v.map_values(|s: SelectorEnum| s.model())
}

/// Outcome of parsing a piece: a value and the position after it, or the
/// position where parsing stopped and what was expected there.
pub type Parsed<V> = Result<(V, int), (int, Rule)>;

pub open spec fn is_space(c: char) -> bool {
    c == ' ' || c == '\t' || c == '\r' || c == '\n'
}

/// The first position at or after `i` that holds no space.
pub open spec fn skip_ws(s: Seq<char>, i: int) -> int
    decreases s.len() - i,
{
    if 0 <= i < s.len() && is_space(s[i]) {
        skip_ws(s, i + 1)
    } else {
        i
    }
}

/// `w` stands in `s` at `i`.
pub open spec fn at(s: Seq<char>, i: int, w: Seq<char>) -> bool {
    0 <= i && i + w.len() <= s.len() && s.subrange(i, i + w.len()) == w
}

/// The first position at or after `i` holding `c`, or the end.
pub open spec fn find(s: Seq<char>, i: int, c: char) -> int
    decreases s.len() - i,
{
    if 0 <= i < s.len() && s[i] != c {
        find(s, i + 1, c)
    } else {
        i
    }
}

/// `c` at `skip_ws(s, i)`; the position after it.
pub open spec fn token(s: Seq<char>, i: int, c: char, rule: Rule) -> Parsed<()> {
    let j = skip_ws(s, i);
    if 0 <= j < s.len() && s[j] == c {
        Ok(((), j + 1))
    } else {
        Err((j, rule))
    }
}

/// A non-empty backquoted string after optional spaces: its bounds and the
/// position after the closing backquote.
pub open spec fn quoted(s: Seq<char>, i: int) -> Parsed<(int, int)> {
    let j = skip_ws(s, i);
    if 0 <= j < s.len() && s[j] == '`' {
        let k = find(s, j + 1, '`');
        if k < s.len() && k > j + 1 {
            Ok(((j + 1, k), k + 1))
        } else {
            Err((j + 1, Rule::Quoted))
        }
    } else {
        Err((j, Rule::Quoted))
    }
}

/// The steps of a path written in `s` from `i` up to `end`.
pub open spec fn steps(s: Seq<char>, i: int, end: int) -> Result<Seq<(Path, Seq<char>)>, (int, Rule)>
    decreases end - i,
{
    if i >= end {
        Ok(seq![])
    } else {
        let (p, j) = if i + 1 < end && s[i] == '/' && s[i + 1] == '/' {
            (Path::Travel, i + 2)
        } else {
            (Path::Single, i + 1)
        };
        if s[i] != '/' {
            Err((i, Rule::PathStep))
        } else {
            let k = if find(s, j, '/') < end {
                find(s, j, '/')
            } else {
                end
            };
            if k <= j {
                Err((j, Rule::Tag))
            } else {
                match steps(s, k, end) {
                    Ok(rest) => Ok(seq![(p, s.subrange(j, k))] + rest),
                    Err(e) => Err(e),
                }
            }
        }
    }
}

pub open spec fn is_digit(c: char) -> bool {
    '0' <= c && c <= '9'
}

/// The first position at or after `i` that holds no digit.
pub open spec fn digits_end(s: Seq<char>, i: int) -> int
    decreases s.len() - i,
{
    if 0 <= i < s.len() && is_digit(s[i]) {
        digits_end(s, i + 1)
    } else {
        i
    }
}

/// The number written by the digits of `s` from `i` up to `j`.
pub open spec fn number(s: Seq<char>, i: int, j: int) -> nat
    decreases j - i,
{
    if j <= i {
        0
    } else {
        (number(s, i, j - 1) * 10 + (s[j - 1] as nat - '0' as nat)) as nat
    }
}

/// A keyword of the language, written with its sigil.
pub open spec fn kw_flat() -> Seq<char> { seq!['@', 'f', 'l', 'a', 't'] }
pub open spec fn kw_path() -> Seq<char> { seq!['@', 'p', 'a', 't', 'h'] }
pub open spec fn kw_attr() -> Seq<char> { seq!['@', 'a', 't', 't', 'r'] }
pub open spec fn kw_id() -> Seq<char> { seq!['@', 'i', 'd'] }
pub open spec fn kw_class() -> Seq<char> { seq!['@', 'c', 'l', 'a', 's', 's'] }
pub open spec fn kw_child() -> Seq<char> { seq!['@', 'c', 'h', 'i', 'l', 'd'] }
pub open spec fn kw_text() -> Seq<char> { seq!['#', 't', 'e', 'x', 't'] }
pub open spec fn kw_trim() -> Seq<char> { seq!['#', 't', 'r', 'i', 'm'] }
pub open spec fn kw_trim_prefix() -> Seq<char> { seq!['#', 't', 'r', 'i', 'm', 'P', 'r', 'e', 'f', 'i', 'x'] }
pub open spec fn kw_trim_suffix() -> Seq<char> { seq!['#', 't', 'r', 'i', 'm', 'S', 'u', 'f', 'f', 'i', 'x'] }
pub open spec fn kw_extract() -> Seq<char> { seq!['#', 'a', 't', 't', 'r'] }

/// The optional `, 0` or `, 1` of `@id` and `@class`, then `)`: whether the
/// comparison is exact.
pub open spec fn case_opt(s: Seq<char>, i: int) -> Parsed<bool> {
    match token(s, i, ',', Rule::CloseParen) {
        Ok((_, j)) => {
            let k = skip_ws(s, j);
            if 0 <= k < s.len() && (s[k] == '0' || s[k] == '1') {
                match token(s, k + 1, ')', Rule::CloseParen) {
                    Ok((_, m)) => Ok((s[k] == '1', m)),
                    Err(e) => Err(e),
                }
            } else {
                Err((k, Rule::CaseSensitiveOpt))
            }
        },
        Err(_) => match token(s, i, ')', Rule::CloseParen) {
            Ok((_, m)) => Ok((true, m)),
            Err(e) => Err(e),
        },
    }
}

/// The arguments and closing parenthesis of the expression named `kw`,
/// starting right after its `(`.
pub open spec fn args(s: Seq<char>, kw: Seq<char>, i: int) -> Parsed<SelModel> {
    if kw == kw_flat() || kw == kw_text() || kw == kw_trim() {
        match token(s, i, ')', Rule::CloseParen) {
            Ok((_, j)) => Ok((
                if kw == kw_flat() {
                    SelModel::Flat
                } else if kw == kw_text() {
                    SelModel::Text
                } else {
                    SelModel::Trim
                },
                j,
            )),
            Err(e) => Err(e),
        }
    } else if kw == kw_path() {
        match quoted(s, i) {
            Ok(((a, b), j)) => match steps(s, a, b) {
                Ok(st) => match token(s, j, ')', Rule::CloseParen) {
                    Ok((_, m)) => Ok((SelModel::Path(st), m)),
                    Err(e) => Err(e),
                },
                Err(e) => Err(e),
            },
            Err(e) => Err(e),
        }
    } else if kw == kw_child() {
        let j = skip_ws(s, i);
        let neg = 0 <= j < s.len() && s[j] == '-';
        let d = if neg {
            j + 1
        } else {
            j
        };
        let e = digits_end(s, d);
        if e <= d {
            Err((d, Rule::ChildNum))
        } else if number(s, d, e) > usize::MAX {
            Err((d, Rule::ChildNum))
        } else {
            match token(s, e, ')', Rule::CloseParen) {
                Ok((_, m)) => {
                    let n = number(s, d, e);
                    Ok((
                        if neg && n > 0 {
                            SelModel::NthChild((n - 1) as nat, true)
                        } else {
                            SelModel::NthChild(n, false)
                        },
                        m,
                    ))
                },
                Err(e) => Err(e),
            }
        }
    } else {
        match quoted(s, i) {
            Ok(((a, b), j)) => {
                let v = s.subrange(a, b);
                if kw == kw_id() || kw == kw_class() {
                    match case_opt(s, j) {
                        Ok((cs, m)) => Ok((
                            if kw == kw_id() {
                                SelModel::Id(v, cs)
                            } else {
                                SelModel::Class(v, cs)
                            },
                            m,
                        )),
                        Err(e) => Err(e),
                    }
                } else if kw == kw_attr() {
                    match token(s, j, ',', Rule::CloseParen) {
                        Ok((_, k)) => match quoted(s, k) {
                            Ok(((a2, b2), k2)) => match token(s, k2, ')', Rule::CloseParen) {
                                Ok((_, m)) => Ok((
                                    SelModel::Attr(None, seq![], v, Some(s.subrange(a2, b2))),
                                    m,
                                )),
                                Err(e) => Err(e),
                            },
                            Err(e) => Err(e),
                        },
                        Err(_) => match token(s, j, ')', Rule::CloseParen) {
                            Ok((_, m)) => Ok((SelModel::Attr(None, seq![], v, None), m)),
                            Err(e) => Err(e),
                        },
                    }
                } else {
                    match token(s, j, ')', Rule::CloseParen) {
                        Ok((_, m)) => Ok((
                            if kw == kw_trim_prefix() {
                                SelModel::TrimPrefix(v)
                            } else if kw == kw_trim_suffix() {
                                SelModel::TrimSuffix(v)
                            } else {
                                SelModel::ExtractAttr(None, seq![], v)
                            },
                            m,
                        )),
                        Err(e) => Err(e),
                    }
                }
            },
            Err(e) => Err(e),
        }
    }
}

/// The keywords, longest first where one begins another.
pub open spec fn keywords() -> Seq<Seq<char>> {
    seq![
        kw_trim_prefix(),
        kw_trim_suffix(),
        kw_trim(),
        kw_text(),
        kw_extract(),
        kw_flat(),
        kw_path(),
        kw_attr(),
        kw_id(),
        kw_class(),
        kw_child(),
    ]
}

/// The index of the first keyword standing at `j`, if any.
pub open spec fn keyword_at(s: Seq<char>, j: int, k: int) -> Option<int>
    decreases keywords().len() - k,
{
    if k < 0 || k >= keywords().len() {
        None
    } else if at(s, j, keywords()[k]) {
        Some(k)
    } else {
        keyword_at(s, j, k + 1)
    }
}

/// One expression after optional spaces.
pub open spec fn expr(s: Seq<char>, i: int) -> Parsed<SelModel> {
    let j = skip_ws(s, i);
    match keyword_at(s, j, 0) {
        None => Err((j, Rule::FlatExpr)),
        Some(k) => {
            let kw = keywords()[k];
            match token(s, j + kw.len(), '(', Rule::OpenParen) {
                Ok((_, m)) => args(s, kw, m),
                Err(e) => Err(e),
            }
        },
    }
}

/// The expressions that follow one ending at `i`, up to the end of input.
pub open spec fn rest(s: Seq<char>, i: int) -> Result<Seq<SelModel>, (int, Rule)>
    decreases s.len() - i,
{
    let j = skip_ws(s, i);
    if j >= s.len() {
        Ok(seq![])
    } else if s[j] != '|' {
        Err((j, Rule::EOI))
    } else {
        match expr(s, j + 1) {
            Ok((m, k)) => if k > i && k <= s.len() {
                match rest(s, k) {
                    Ok(ms) => Ok(seq![m] + ms),
                    Err(e) => Err(e),
                }
            } else {
                Err((k, Rule::EOI))
            },
            Err(e) => Err(e),
        }
    }
}

/// A whole query.
pub open spec fn query(s: Seq<char>) -> Result<Seq<SelModel>, (int, Rule)> {
    match expr(s, 0) {
        Ok((m, k)) => if 0 < k <= s.len() {
            match rest(s, k) {
                Ok(ms) => Ok(seq![m] + ms),
                Err(e) => Err(e),
            }
        } else {
            Err((k, Rule::EOI))
        },
        Err(e) => Err(e),
    }
}

/// The line, from 1, of position `p`.
pub open spec fn line_of(s: Seq<char>, p: int) -> nat
    decreases p,
{
    if p <= 0 || s.len() == 0 {
        1
    } else if p - 1 < s.len() && s[p - 1] == '\n' {
        line_of(s, p - 1) + 1
    } else {
        line_of(s, p - 1)
    }
}

/// The column, from 1, of position `p`.
pub open spec fn col_of(s: Seq<char>, p: int) -> nat
    decreases p,
{
    if p <= 0 || s.len() == 0 {
        1
    } else if p - 1 < s.len() && s[p - 1] == '\n' {
        1
    } else {
        col_of(s, p - 1) + 1
    }
}

/// The rules reported for a stop where `rule` was expected.
pub open spec fn expected_of(rule: Rule) -> Seq<Rule> {
    if rule == Rule::FlatExpr {
        seq![Rule::FlatExpr, Rule::PathExpr, Rule::AttrExpr, Rule::IdExpr, Rule::ClassExpr, Rule::HelperExpr]
    } else if rule == Rule::EOI {
        seq![Rule::EOI, Rule::Pipe]
    } else {
        seq![rule]
    }
}

pub open spec fn lift_pos(r: Result<usize, (usize, Rule)>) -> Parsed<()> {
    match r {
        Ok(m) => Ok(((), m as int)),
        Err((p, ru)) => Err((p as int, ru)),
    }
}

pub open spec fn lift_quoted(r: Result<(usize, usize, usize), (usize, Rule)>) -> Parsed<(int, int)> {
    match r {
        Ok((a, b, n)) => Ok(((a as int, b as int), n as int)),
        Err((p, ru)) => Err((p as int, ru)),
    }
}

pub open spec fn lift_bool(r: Result<(bool, usize), (usize, Rule)>) -> Parsed<bool> {
    match r {
        Ok((b, n)) => Ok((b, n as int)),
        Err((p, ru)) => Err((p as int, ru)),
    }
}

pub open spec fn lift_sel(r: Result<(SelectorEnum, usize), (usize, Rule)>) -> Parsed<SelModel> {
    match r {
        Ok((v, n)) => Ok((v.model(), n as int)),
        Err((p, ru)) => Err((p as int, ru)),
    }
}

pub open spec fn steps_view(v: Seq<(Path, String)>) -> Seq<(Path, Seq<char>)> {
    v.map_values(|x: (Path, String)| (x.0, x.1@))
}

pub open spec fn prepend<A>(acc: Seq<A>, r: Result<Seq<A>, (int, Rule)>) -> Result<Seq<A>, (int, Rule)> {
    match r {
        Ok(xs) => Ok(acc + xs),
        Err(e) => Err(e),
    }
}

pub fn is_space_exec(c: char) -> (r: bool)
    ensures
        r == is_space(c),
{
    c == ' ' || c == '\t' || c == '\r' || c == '\n'
}

fn skip_spaces(cs: &Vec<char>, i: usize) -> (r: usize)
    requires
        i <= cs@.len(),
    ensures
        r as int == skip_ws(cs@, i as int),
        i <= r <= cs@.len(),
{
    let mut j = i;
    while j < cs.len() && is_space_exec(cs[j])
        invariant
            i <= j <= cs@.len(),
            skip_ws(cs@, i as int) == skip_ws(cs@, j as int),
        decreases cs@.len() - j,
    {
        j = j + 1;
    }
    j
}

fn find_char(cs: &Vec<char>, i: usize, c: char) -> (r: usize)
    requires
        i <= cs@.len(),
    ensures
        r as int == find(cs@, i as int, c),
        i <= r <= cs@.len(),
{
    let mut j = i;
    while j < cs.len() && cs[j] != c
        invariant
            i <= j <= cs@.len(),
            find(cs@, i as int, c) == find(cs@, j as int, c),
        decreases cs@.len() - j,
    {
        j = j + 1;
    }
    j
}

fn token_exec(cs: &Vec<char>, i: usize, c: char, rule: Rule) -> (r: Result<usize, (usize, Rule)>)
    requires
        i <= cs@.len(),
    ensures
        lift_pos(r) == token(cs@, i as int, c, rule),
        r matches Ok(m) ==> i < m <= cs@.len(),
        r matches Err((p, _)) ==> p <= cs@.len(),
{
    let j = skip_spaces(cs, i);
    if j < cs.len() && cs[j] == c {
        Ok(j + 1)
    } else {
        Err((j, rule))
    }
}

fn quoted_exec(cs: &Vec<char>, i: usize) -> (r: Result<(usize, usize, usize), (usize, Rule)>)
    requires
        i <= cs@.len(),
    ensures
        lift_quoted(r) == quoted(cs@, i as int),
        r matches Ok((a, b, n)) ==> i < a < b < n <= cs@.len(),
        r matches Err((p, _)) ==> p <= cs@.len(),
{
    let j = skip_spaces(cs, i);
    if j < cs.len() && cs[j] == '`' {
        let k = find_char(cs, j + 1, '`');
        if k < cs.len() && k > j + 1 {
            Ok((j + 1, k, k + 1))
        } else {
            Err((j + 1, Rule::Quoted))
        }
    } else {
        Err((j, Rule::Quoted))
    }
}

fn steps_exec(cs: &Vec<char>, input: &str, a: usize, b: usize) -> (r: Result<Vec<(Path, String)>, (usize, Rule)>)
    requires
        a <= b <= cs@.len(),
        cs@ == input@,
    ensures
        match r {
            Ok(v) => steps(cs@, a as int, b as int) == Ok::<Seq<(Path, Seq<char>)>, (int, Rule)>(steps_view(v@)),
            Err((p, ru)) => steps(cs@, a as int, b as int) == Err::<Seq<(Path, Seq<char>)>, (int, Rule)>((p as int, ru)),
        },
        r matches Err((p, _)) ==> p <= cs@.len(),
{
    let s = cs;
    let mut acc: Vec<(Path, String)> = Vec::new();
    let mut i = a;
    proof {
        assert(steps_view(acc@) =~= Seq::<(Path, Seq<char>)>::empty());
        assert(prepend(steps_view(acc@), steps(s@, i as int, b as int)) =~= steps(s@, a as int, b as int)) by {
            match steps(s@, a as int, b as int) {
                Ok(xs) => {
                    assert(Seq::<(Path, Seq<char>)>::empty() + xs =~= xs);
                },
                Err(_) => {},
            }
        }
    }
    while i < b
        invariant
            a <= i <= b <= s@.len(),
            s@ == input@,
            s@ == cs@,
            prepend(steps_view(acc@), steps(s@, i as int, b as int)) == steps(s@, a as int, b as int),
        decreases b - i,
    {
        let c = s[i];
        if c != '/' {
            proof {
                assert(i < cs@.len());
                assert(steps(s@, i as int, b as int) == Err::<Seq<(Path, Seq<char>)>, (int, Rule)>((i as int, Rule::PathStep)));
                assert(prepend(steps_view(acc@), steps(s@, i as int, b as int)) == Err::<Seq<(Path, Seq<char>)>, (int, Rule)>((i as int, Rule::PathStep)));
            }
            return Err((i, Rule::PathStep));
        }
        let (p, j) = if i + 1 < b && s[i + 1] == '/' {
            (Path::Travel, i + 2)
        } else {
            (Path::Single, i + 1)
        };
        let f = find_char(s, j, '/');
        let k = if f < b {
            f
        } else {
            b
        };
        if k <= j {
            proof {
                assert(steps(s@, i as int, b as int) == Err::<Seq<(Path, Seq<char>)>, (int, Rule)>((j as int, Rule::Tag)));
                assert(prepend(steps_view(acc@), steps(s@, i as int, b as int)) == Err::<Seq<(Path, Seq<char>)>, (int, Rule)>((j as int, Rule::Tag)));
            }
            return Err((j, Rule::Tag));
        }
        let tag = sub_string(input, j, k);
        let ghost before = steps_view(acc@);
        acc.push((p, tag));
        proof {
            assert(steps_view(acc@) =~= before + seq![(p, s@.subrange(j as int, k as int))]);
            match steps(s@, k as int, b as int) {
                Ok(xs) => {
                    assert(before + (seq![(p, s@.subrange(j as int, k as int))] + xs) =~= steps_view(acc@) + xs);
                },
                Err(_) => {},
            }
        }
        i = k;
    }
    proof {
        assert(steps_view(acc@) + Seq::<(Path, Seq<char>)>::empty() =~= steps_view(acc@));
    }
    Ok(acc)
}

fn digits_exec(cs: &Vec<char>, i: usize) -> (r: usize)
    requires
        i <= cs@.len(),
    ensures
        r as int == digits_end(cs@, i as int),
        i <= r <= cs@.len(),
        forall|k: int| i <= k < r ==> is_digit(#[trigger] cs@[k]),
{
    let mut j = i;
    while j < cs.len() && '0' <= cs[j] && cs[j] <= '9'
        invariant
            i <= j <= cs@.len(),
            digits_end(cs@, i as int) == digits_end(cs@, j as int),
            forall|k: int| i <= k < j ==> is_digit(#[trigger] cs@[k]),
        decreases cs@.len() - j,
    {
        j = j + 1;
    }
    j
}

proof fn lemma_number_grows(s: Seq<char>, d: int, j: int, e: int)
    requires
        d <= j <= e,
        forall|k: int| d <= k < e ==> is_digit(#[trigger] s[k]),
    ensures
        number(s, d, j) <= number(s, d, e),
    decreases e - j,
{
    if j < e {
        lemma_number_grows(s, d, j, e - 1);
        assert(is_digit(s[e - 1]));
        assert(number(s, d, e) == number(s, d, e - 1) * 10 + (s[e - 1] as nat - '0' as nat));
    }
}

/// The number written by the digits from `d` up to `e`, if it fits.
fn number_exec(cs: &Vec<char>, d: usize, e: usize) -> (r: Option<usize>)
    requires
        d <= e <= cs@.len(),
        forall|k: int| d <= k < e ==> is_digit(#[trigger] cs@[k]),
    ensures
        r matches Some(n) ==> n as nat == number(cs@, d as int, e as int),
        r is None <==> number(cs@, d as int, e as int) > usize::MAX,
{
    let mut acc: usize = 0;
    let mut k = d;
    while k < e
        invariant
            d <= k <= e <= cs@.len(),
            forall|q: int| d <= q < e ==> is_digit(#[trigger] cs@[q]),
            acc as nat == number(cs@, d as int, k as int),
        decreases e - k,
    {
        let c = cs[k];
        assert(is_digit(cs@[k as int]));
        let dg = (c as u32 - '0' as u32) as usize;
        match acc.checked_mul(10) {
            Some(x) => match x.checked_add(dg) {
                Some(y) => {
                    acc = y;
                },
                None => {
                    proof {
                        lemma_number_grows(cs@, d as int, k + 1, e as int);
                    }
                    return None;
                },
            },
            None => {
                proof {
                    lemma_number_grows(cs@, d as int, k + 1, e as int);
                    assert(number(cs@, d as int, k + 1) >= acc * 10) by (nonlinear_arith)
                        requires
                            number(cs@, d as int, k + 1) == acc * 10 + (cs@[k as int] as nat - '0' as nat),
                            cs@[k as int] as nat >= '0' as nat,
                    ;
                }
                return None;
            },
        }
        k = k + 1;
    }
    Some(acc)
}

fn case_opt_exec(cs: &Vec<char>, i: usize) -> (r: Result<(bool, usize), (usize, Rule)>)
    requires
        i <= cs@.len(),
    ensures
        lift_bool(r) == case_opt(cs@, i as int),
        r matches Ok((_, m)) ==> i < m <= cs@.len(),
        r matches Err((p, _)) ==> p <= cs@.len(),
{
    match token_exec(cs, i, ',', Rule::CloseParen) {
        Ok(j) => {
            let k = skip_spaces(cs, j);
            if k < cs.len() && (cs[k] == '0' || cs[k] == '1') {
                match token_exec(cs, k + 1, ')', Rule::CloseParen) {
                    Ok(m) => Ok((cs[k] == '1', m)),
                    Err(e) => Err(e),
                }
            } else {
                Err((k, Rule::CaseSensitiveOpt))
            }
        },
        Err(_) => match token_exec(cs, i, ')', Rule::CloseParen) {
            Ok(m) => Ok((true, m)),
            Err(e) => Err(e),
        },
    }
}

/// The keyword with index `k`.
fn keyword(k: usize) -> (r: Vec<char>)
    requires
        k < 11,
    ensures
        r@ == keywords()[k as int],
{
    let r = if k == 0 {
        vec!['#', 't', 'r', 'i', 'm', 'P', 'r', 'e', 'f', 'i', 'x']
    } else if k == 1 {
        vec!['#', 't', 'r', 'i', 'm', 'S', 'u', 'f', 'f', 'i', 'x']
    } else if k == 2 {
        vec!['#', 't', 'r', 'i', 'm']
    } else if k == 3 {
        vec!['#', 't', 'e', 'x', 't']
    } else if k == 4 {
        vec!['#', 'a', 't', 't', 'r']
    } else if k == 5 {
        vec!['@', 'f', 'l', 'a', 't']
    } else if k == 6 {
        vec!['@', 'p', 'a', 't', 'h']
    } else if k == 7 {
        vec!['@', 'a', 't', 't', 'r']
    } else if k == 8 {
        vec!['@', 'i', 'd']
    } else if k == 9 {
        vec!['@', 'c', 'l', 'a', 's', 's']
    } else {
        vec!['@', 'c', 'h', 'i', 'l', 'd']
    };
    r
}

fn at_exec(cs: &Vec<char>, i: usize, w: &Vec<char>) -> (r: bool)
    requires
        i <= cs@.len(),
    ensures
        r == at(cs@, i as int, w@),
{
    let n = cs.len();
    if w.len() > n - i {
        return false;
    }
    let mut k: usize = 0;
    while k < w.len()
        invariant
            n == cs@.len(),
            i + w@.len() <= cs@.len(),
            0 <= k <= w@.len(),
            forall|q: int| 0 <= q < k ==> cs@[i + q] == w@[q],
        decreases w@.len() - k,
    {
        if cs[i + k] != w[k] {
            proof {
                assert(cs@.subrange(i as int, i + w@.len())[k as int] != w@[k as int]);
            }
            return false;
        }
        k = k + 1;
    }
    proof {
        assert(cs@.subrange(i as int, i + w@.len()) =~= w@);
    }
    true
}

fn keyword_at_exec(cs: &Vec<char>, j: usize) -> (r: Option<usize>)
    requires
        j <= cs@.len(),
    ensures
        r matches Some(k) ==> keyword_at(cs@, j as int, 0) == Some(k as int) && k < 11,
        r is None ==> keyword_at(cs@, j as int, 0) is None,
{
    let mut k: usize = 0;
    while k < 11
        invariant
            0 <= k <= 11,
            j <= cs@.len(),
            keywords().len() == 11,
            keyword_at(cs@, j as int, 0) == keyword_at(cs@, j as int, k as int),
        decreases 11 - k,
    {
        let w = keyword(k);
        if at_exec(cs, j, &w) {
            return Some(k);
        }
        k = k + 1;
    }
    None
}

proof fn lemma_keyword_at(s: Seq<char>, j: int, m: int)
    ensures
        keyword_at(s, j, m) matches Some(k) ==> 0 <= k < keywords().len() && at(s, j, keywords()[k]),
    decreases keywords().len() - m,
{
    if 0 <= m < keywords().len() && !at(s, j, keywords()[m]) {
        lemma_keyword_at(s, j, m + 1);
    }
}

/// What tells the keywords apart.
proof fn lemma_keywords()
    ensures
        keywords().len() == 11,
        keywords()[0] == kw_trim_prefix(),
        keywords()[1] == kw_trim_suffix(),
        keywords()[2] == kw_trim(),
        keywords()[3] == kw_text(),
        keywords()[4] == kw_extract(),
        keywords()[5] == kw_flat(),
        keywords()[6] == kw_path(),
        keywords()[7] == kw_attr(),
        keywords()[8] == kw_id(),
        keywords()[9] == kw_class(),
        keywords()[10] == kw_child(),
        kw_trim_prefix() != kw_trim_suffix(),
        forall|i: int, j: int| 0 <= i < j < 11 ==> keywords()[i] != keywords()[j],
{
    let ks = keywords();
    assert(kw_trim_prefix()[5] != kw_trim_suffix()[5]);
    assert forall|i: int, j: int| 0 <= i < j < 11 implies ks[i] != ks[j] by {
        let a = ks[i];
        let b = ks[j];
        if a.len() == b.len() {
            if a[0] == b[0] && a[1] == b[1] && a[2] == b[2] {
                assert(a[5] != b[5]);
            }
        }
    }
}

fn args_exec(cs: &Vec<char>, input: &str, k: usize, i: usize) -> (r: Result<(SelectorEnum, usize), (usize, Rule)>)
    requires
        i <= cs@.len(),
        cs@ == input@,
        k < 11,
    ensures
        lift_sel(r) == args(cs@, keywords()[k as int], i as int),
        r matches Ok((_, m)) ==> i < m <= cs@.len(),
        r matches Err((p, _)) ==> p <= cs@.len(),
{
    proof {
        lemma_keywords();
    }
    let ghost kw = keywords()[k as int];
    if k == 5 || k == 3 || k == 2 {
        match token_exec(cs, i, ')', Rule::CloseParen) {
            Ok(j) => {
                let sel: SelectorEnum = if k == 5 {
                    SelectorEnum::FlatSelector(FlatSelector::new())
                } else if k == 3 {
                    SelectorEnum::TextSelector(TextSelector::new())
                } else {
                    SelectorEnum::TrimSelector(TrimSelector::new())
                };
                Ok((sel, j))
            },
            Err(e) => Err(e),
        }
    } else if k == 6 {
        match quoted_exec(cs, i) {
            Ok((a, b, j)) => match steps_exec(cs, input, a, b) {
                Ok(st) => match token_exec(cs, j, ')', Rule::CloseParen) {
                    Ok(m) => Ok((SelectorEnum::PathSelector(PathSelector::new(st)), m)),
                    Err(e) => Err(e),
                },
                Err(e) => Err(e),
            },
            Err(e) => Err(e),
        }
    } else if k == 10 {
        let j = skip_spaces(cs, i);
        let neg = j < cs.len() && cs[j] == '-';
        let d = if neg {
            j + 1
        } else {
            j
        };
        let e = digits_exec(cs, d);
        if e <= d {
            return Err((d, Rule::ChildNum));
        }
        match number_exec(cs, d, e) {
            None => Err((d, Rule::ChildNum)),
            Some(n) => match token_exec(cs, e, ')', Rule::CloseParen) {
                Ok(m) => {
                    let sel = if neg && n > 0 {
                        NthChildSelector::new(n - 1, true)
                    } else {
                        NthChildSelector::new(n, false)
                    };
                    Ok((SelectorEnum::NthChildSelector(sel), m))
                },
                Err(e) => Err(e),
            },
        }
    } else {
        match quoted_exec(cs, i) {
            Ok((a, b, j)) => {
                let v = sub_string(input, a, b);
                if k == 8 || k == 9 {
                    match case_opt_exec(cs, j) {
                        Ok((c, m)) => {
                            let sel = if k == 8 {
                                SelectorEnum::IDSelector(IDSelector::new(v, c))
                            } else {
                                SelectorEnum::ClassSelector(ClassSelector::new(v, c))
                            };
                            Ok((sel, m))
                        },
                        Err(e) => Err(e),
                    }
                } else if k == 7 {
                    match token_exec(cs, j, ',', Rule::CloseParen) {
                        Ok(q) => match quoted_exec(cs, q) {
                            Ok((a2, b2, q2)) => match token_exec(cs, q2, ')', Rule::CloseParen) {
                                Ok(m) => {
                                    let w = sub_string(input, a2, b2);
                                    let sel = AttrSelector::new(v.as_str(), Some(w.as_str()));
                                    Ok((SelectorEnum::AttrSelector(sel), m))
                                },
                                Err(e) => Err(e),
                            },
                            Err(e) => Err(e),
                        },
                        Err(_) => match token_exec(cs, j, ')', Rule::CloseParen) {
                            Ok(m) => {
                                let sel = AttrSelector::new(v.as_str(), None);
                                Ok((SelectorEnum::AttrSelector(sel), m))
                            },
                            Err(e) => Err(e),
                        },
                    }
                } else {
                    match token_exec(cs, j, ')', Rule::CloseParen) {
                        Ok(m) => {
                            let sel = if k == 0 {
                                SelectorEnum::TrimPrefixSelector(TrimPrefixSelector::new(v))
                            } else if k == 1 {
                                SelectorEnum::TrimSuffixSelector(TrimSuffixSelector::new(v))
                            } else {
                                SelectorEnum::ExtractAttrSelector(ExtractAttrSelector::new(v.as_str()))
                            };
                            Ok((sel, m))
                        },
                        Err(e) => Err(e),
                    }
                }
            },
            Err(e) => Err(e),
        }
    }
}

fn expr_exec(cs: &Vec<char>, input: &str, i: usize) -> (r: Result<(SelectorEnum, usize), (usize, Rule)>)
    requires
        i <= cs@.len(),
        cs@ == input@,
    ensures
        lift_sel(r) == expr(cs@, i as int),
        r matches Ok((_, m)) ==> i < m <= cs@.len(),
        r matches Err((p, _)) ==> p <= cs@.len(),
{
    proof {
        lemma_keywords();
    }
    let n = cs.len();
    let j = skip_spaces(cs, i);
    match keyword_at_exec(cs, j) {
        None => Err((j, Rule::FlatExpr)),
        Some(k) => {
            let w = keyword(k);
            proof {
                lemma_keyword_at(cs@, j as int, 0);
            }
            match token_exec(cs, j + w.len(), '(', Rule::OpenParen) {
                Ok(m) => args_exec(cs, input, k, m),
                Err(e) => Err(e),
            }
        },
    }
}

/// Line and column, both from 1, of position `p`.
fn line_col(cs: &Vec<char>, p: usize) -> (r: (usize, usize))
    requires
        p <= cs@.len(),
        cs@.len() < usize::MAX,
    ensures
        r.0 as nat == line_of(cs@, p as int),
        r.1 as nat == col_of(cs@, p as int),
{
    let mut line: usize = 1;
    let mut col: usize = 1;
    let mut k: usize = 0;
    while k < p
        invariant
            0 <= k <= p <= cs@.len() < usize::MAX,
            line as nat == line_of(cs@, k as int),
            col as nat == col_of(cs@, k as int),
            1 <= line <= k + 1,
            1 <= col <= k + 1,
        decreases p - k,
    {
        if cs[k] == '\n' {
            line = line + 1;
            col = 1;
        } else {
            col = col + 1;
        }
        k = k + 1;
    }
    (line, col)
}

fn expected_exec(rule: Rule) -> (r: Vec<Rule>)
    ensures
        r@ == expected_of(rule),
{
    match rule {
        Rule::FlatExpr => vec![Rule::FlatExpr, Rule::PathExpr, Rule::AttrExpr, Rule::IdExpr, Rule::ClassExpr, Rule::HelperExpr],
        Rule::EOI => vec![Rule::EOI, Rule::Pipe],
        _ => vec![rule],
    }
}

fn error_at(cs: &Vec<char>, p: usize, rule: Rule) -> (r: ParseError)
    requires
        p <= cs@.len(),
        cs@.len() < usize::MAX,
    ensures
        r.line as nat == line_of(cs@, p as int),
        r.col as nat == col_of(cs@, p as int),
        r.expected@ == expected_of(rule),
{
    let (line, col) = line_col(cs, p);
    ParseError { line, col, expected: expected_exec(rule) }
}

/// Compiles a query into its selectors.
///
/// Fails exactly when the query does not follow the grammar, with the line
/// and column where parsing stopped and what was expected there.
pub fn try_parse_hql(input: &str) -> (r: Result<Vec<SelectorEnum>, ParseError>)
    requires
        input@.len() < usize::MAX,
    ensures
        r matches Ok(v) ==> query(input@) == Ok::<Seq<SelModel>, (int, Rule)>(models(v@)),
        r matches Err(e) ==> query(input@) matches Err((p, rule)) && e.line as nat == line_of(input@, p)
            && e.col as nat == col_of(input@, p) && e.expected@ == expected_of(rule),
        r is Ok <==> query(input@) is Ok,
{
    let cs = chars_of(input);
    let (first, k) = match expr_exec(&cs, input, 0) {
        Ok(x) => x,
        Err((p, rule)) => {
            return Err(error_at(&cs, p, rule));
        },
    };
    let mut acc: Vec<SelectorEnum> = Vec::new();
    let ghost m0 = first.model();
    acc.push(first);
    let mut i = k;
    proof {
        assert(models(acc@) =~= seq![m0]);
    }
    loop
        invariant
            0 < i <= cs@.len(),
            cs@ == input@,
            cs@.len() < usize::MAX,
            query(cs@) == prepend(models(acc@), rest(cs@, i as int)),
        decreases cs@.len() - i,
    {
        let j = skip_spaces(&cs, i);
        if j >= cs.len() {
            proof {
                assert(models(acc@) + Seq::<SelModel>::empty() =~= models(acc@));
            }
            return Ok(acc);
        }
        if cs[j] != '|' {
            return Err(error_at(&cs, j, Rule::EOI));
        }
        match expr_exec(&cs, input, j + 1) {
            Ok((sel, m)) => {
                let ghost before = models(acc@);
                let ghost mm = sel.model();
                acc.push(sel);
                proof {
                    assert(models(acc@) =~= before + seq![mm]);
                    match rest(cs@, m as int) {
                        Ok(xs) => {
                            assert(before + (seq![mm] + xs) =~= models(acc@) + xs);
                        },
                        Err(_) => {},
                    }
                }
                i = m;
            },
            Err((p, rule)) => {
                return Err(error_at(&cs, p, rule));
            },
        }
    }
}

} // verus!
