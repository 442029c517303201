//! The grammar of patterns and its recursive-descent parser.
//!
//! Precedence, tightest first: a primary (a literal symbol or a parenthesized
//! sub-expression), then the postfix closures `*` and `+` (chainable), then
//! implicit concatenation (right-associative), then `|` (right-associative).
//! The spec functions `sp_primary` .. `sp_parse` state that grammar directly;
//! each executable parser function returns exactly what its spec counterpart
//! describes.

use vstd::prelude::*;

verus! {

/// Error produced when a pattern is empty, has an unmatched `(`, a dangling
/// operator with a missing operand, or trailing unconsumed input.
#[derive(Clone, Copy, Debug, PartialEq, Eq)]
pub struct MalformedPattern;

/// Tree form of a parsed pattern. Leaves are exactly `Character` nodes.
#[derive(Debug, PartialEq, Eq)]
pub enum RegEx {
    /// Matches exactly the one symbol held.
    Character(char),
    /// Matches the left operand followed by the right operand.
    Concat(Box<RegEx>, Box<RegEx>),
    /// Matches zero or more repetitions of the inner pattern.
    KleeneClosure(Box<RegEx>),
    /// Matches one or more repetitions of the inner pattern.
    PositiveClosure(Box<RegEx>),
    /// Matches the left operand or the right operand.
    Union(Box<RegEx>, Box<RegEx>),
}

/// Parse of a primary at position `i`: a literal symbol, or `(` union `)`.
pub open spec fn sp_primary(s: Seq<char>, i: int) -> Option<(RegEx, int)>
    decreases s.len() - i, 0int when 0 <= i <= s.len()
{
    if i >= s.len() {
        None
    } else if s[i] == '(' {
        match sp_union(s, i + 1) {
            Some((r, j)) => if j < s.len() && s[j] == ')' {
                Some((r, j + 1))
            } else {
                None
            },
            None => None,
        }
    } else {
        Some((RegEx::Character(s[i]), i + 1))
    }
}

/// Applies a chain of postfix `*` and `+` operators to an already parsed
/// operand; each operator binds to the whole result built so far.
pub open spec fn sp_postfix(r: RegEx, s: Seq<char>, i: int) -> (RegEx, int)
    decreases s.len() - i when 0 <= i <= s.len()
{
    if i < s.len() && s[i] == '*' {
        sp_postfix(RegEx::KleeneClosure(Box::new(r)), s, i + 1)
    } else if i < s.len() && s[i] == '+' {
        sp_postfix(RegEx::PositiveClosure(Box::new(r)), s, i + 1)
    } else {
        (r, i)
    }
}

/// Parse of a closure level: a primary followed by any number of `*`/`+`.
pub open spec fn sp_closure(s: Seq<char>, i: int) -> Option<(RegEx, int)>
    decreases s.len() - i, 1int when 0 <= i <= s.len()
{
    match sp_primary(s, i) {
        Some((r, j)) => if 0 <= j <= s.len() {
            Some(sp_postfix(r, s, j))
        } else {
            None
        },
        None => None,
    }
}

/// Parse of a concatenation: closures chained right-associatively until the
/// next symbol is `)`, `|`, or the input ends. The `i < j` test only records
/// that the closure level always consumes at least one symbol.
pub open spec fn sp_concat(s: Seq<char>, i: int) -> Option<(RegEx, int)>
    decreases s.len() - i, 2int when 0 <= i <= s.len()
{
    match sp_closure(s, i) {
        Some((r, j)) => if i < j && j < s.len() && s[j] != ')' && s[j] != '|' {
            match sp_concat(s, j) {
                Some((r2, k)) => Some((RegEx::Concat(Box::new(r), Box::new(r2)), k)),
                None => None,
            }
        } else {
            Some((r, j))
        },
        None => None,
    }
}

/// Parse of a union: concatenations joined right-associatively by `|`.
pub open spec fn sp_union(s: Seq<char>, i: int) -> Option<(RegEx, int)>
    decreases s.len() - i, 3int when 0 <= i <= s.len()
{
    match sp_concat(s, i) {
        Some((r, j)) => if i <= j && j < s.len() && s[j] == '|' {
            match sp_union(s, j + 1) {
                Some((r2, k)) => Some((RegEx::Union(Box::new(r), Box::new(r2)), k)),
                None => None,
            }
        } else {
            Some((r, j))
        },
        None => None,
    }
}

/// The whole-pattern parse: non-empty input, one union, nothing left over.
pub open spec fn sp_parse(s: Seq<char>) -> Result<RegEx, MalformedPattern> {
    if s.len() == 0 {
        Err(MalformedPattern)
    } else {
        match sp_union(s, 0) {
            Some((r, j)) => if j == s.len() {
                Ok(r)
            } else {
                Err(MalformedPattern)
            },
            None => Err(MalformedPattern),
        }
    }
}

impl RegEx {
    /// Parses a primary: one literal symbol, or a parenthesized union whose
    /// closing `)` must be present.
    pub fn parse_primary(chars: &Vec<char>, i: usize) -> (r: Result<(RegEx, usize), MalformedPattern>)
        requires
            i <= chars@.len(),
        ensures
            (r matches Ok(p) ==> (sp_primary(chars@, i as int) == Some((p.0, p.1 as int))
                && i < p.1 <= chars@.len())),
            (r is Err ==> sp_primary(chars@, i as int) is None),
        decreases chars@.len() - i, 0int,
    {
        if i >= chars.len() {
            return Err(MalformedPattern);
        }
        let c = chars[i];
        if c == '(' {
            match Self::parse_union(chars, i + 1) {
                Ok((r0, j)) => {
                    if j < chars.len() && chars[j] == ')' {
                        Ok((r0, j + 1))
                    } else {
                        Err(MalformedPattern)
                    }
                },
                Err(e) => Err(e),
            }
        } else {
            Ok((RegEx::Character(c), i + 1))
        }
    }

    /// Parses a primary and then any chain of postfix `*`/`+` operators.
    pub fn parse_closure(chars: &Vec<char>, i: usize) -> (r: Result<(RegEx, usize), MalformedPattern>)
        requires
            i <= chars@.len(),
        ensures
            (r matches Ok(p) ==> (sp_closure(chars@, i as int) == Some((p.0, p.1 as int))
                && i < p.1 <= chars@.len())),
            (r is Err ==> sp_closure(chars@, i as int) is None),
        decreases chars@.len() - i, 1int,
    {
        let parsed = match Self::parse_primary(chars, i) {
            Ok(p) => p,
            Err(e) => {
                return Err(e);
            },
        };
        let mut rx = parsed.0;
        let mut j = parsed.1;
        while j < chars.len() && (chars[j] == '*' || chars[j] == '+')
            invariant
                i < j <= chars@.len(),
                sp_closure(chars@, i as int) == Some(sp_postfix(rx, chars@, j as int)),
            decreases chars@.len() - j,
        {
            if chars[j] == '*' {
                rx = RegEx::KleeneClosure(Box::new(rx));
            } else {
                rx = RegEx::PositiveClosure(Box::new(rx));
            }
            j = j + 1;
        }
        Ok((rx, j))
    }

    /// Parses a concatenation: adjacent closures until `)`, `|`, or the end.
    pub fn parse_concat(chars: &Vec<char>, i: usize) -> (r: Result<(RegEx, usize), MalformedPattern>)
        requires
            i <= chars@.len(),
        ensures
            (r matches Ok(p) ==> (sp_concat(chars@, i as int) == Some((p.0, p.1 as int))
                && i < p.1 <= chars@.len())),
            (r is Err ==> sp_concat(chars@, i as int) is None),
        decreases chars@.len() - i, 2int,
    {
        let (rx, j) = match Self::parse_closure(chars, i) {
            Ok(p) => p,
            Err(e) => {
                return Err(e);
            },
        };
        if j < chars.len() && chars[j] != ')' && chars[j] != '|' {
            match Self::parse_concat(chars, j) {
                Ok((rx2, k)) => Ok((RegEx::Concat(Box::new(rx), Box::new(rx2)), k)),
                Err(e) => Err(e),
            }
        } else {
            Ok((rx, j))
        }
    }

    /// Parses a union: concatenations separated by `|`.
    pub fn parse_union(chars: &Vec<char>, i: usize) -> (r: Result<(RegEx, usize), MalformedPattern>)
        requires
            i <= chars@.len(),
        ensures
            (r matches Ok(p) ==> (sp_union(chars@, i as int) == Some((p.0, p.1 as int))
                && i < p.1 <= chars@.len())),
            (r is Err ==> sp_union(chars@, i as int) is None),
        decreases chars@.len() - i, 3int,
    {
        let (rx, j) = match Self::parse_concat(chars, i) {
            Ok(p) => p,
            Err(e) => {
                return Err(e);
            },
        };
        if j < chars.len() && chars[j] == '|' {
            match Self::parse_union(chars, j + 1) {
                Ok((rx2, k)) => Ok((RegEx::Union(Box::new(rx), Box::new(rx2)), k)),
                Err(e) => Err(e),
            }
        } else {
            Ok((rx, j))
        }
    }

    /// Parses a whole pattern. Returns the grammar tree exactly when the
    /// input is non-empty and is consumed completely by one union; otherwise
    /// returns `MalformedPattern`.
    pub fn new_from_chars(chars: &Vec<char>) -> (r: Result<RegEx, MalformedPattern>)
        ensures
            r == sp_parse(chars@),
    {
        if chars.len() == 0 {
            return Err(MalformedPattern);
        }
        match Self::parse_union(chars, 0) {
            Ok((rx, j)) => if j == chars.len() {
                Ok(rx)
            } else {
                Err(MalformedPattern)
            },
            Err(e) => Err(e),
        }
    }
}

} // verus!
