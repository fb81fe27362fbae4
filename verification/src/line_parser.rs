use vstd::prelude::*;

verus! {

// The line-level directive grammar.
//
// A line is classified as exactly one of: a `#pragma once` guard, an
// `#include <...>` / `#include "..."` directive, or plain text.  Text is
// the last resort and catches everything else, malformed directive-shaped
// lines included: an unterminated `<...>` or `"..."` target, or a keyword
// not followed by a delimited target, is not an error but passes through
// verbatim.  Line terminators are `\n` or `\r\n`; the one line no class
// matches is a bare `\r` that no `\n` follows, a true grammar error.

/// An include target, either `<...>` (angle) or `"..."` (quoted).
#[derive(Debug, PartialEq, Eq)]
pub enum IncludePath {
    Angle(Vec<u8>),
    Quote(Vec<u8>),
}

/// The classification of one source line.
#[derive(Debug, PartialEq, Eq)]
pub enum Line {
    Text,
    Include(IncludePath),
    PragmaOnce,
}

/// Marker for a line that cannot be classified at all.
#[derive(Debug, PartialEq, Eq)]
pub struct Error;

/// Spec-level classification of the line starting at a position.
pub enum LineClass {
    /// A text line; `next` is the position just past its terminator.
    Text { next: int },
    /// A `#pragma once` line.
    PragmaOnce { next: int },
    /// An include directive with its kind and target bytes.
    Include { angle: bool, target: Seq<u8>, next: int },
    /// No classification applies.
    Malformed,
}

pub open spec fn is_space(c: u8) -> bool {
    c == 32 || c == 9
}

pub open spec fn is_break(c: u8) -> bool {
    c == 10 || c == 13
}

/// Length of a line terminator at `p`: 1 for `\n`, 2 for `\r\n`, else 0.
pub open spec fn ending_len(s: Seq<u8>, p: int) -> int {
    if 0 <= p < s.len() && s[p] == 10 {
        1
    } else if 0 <= p && p + 1 < s.len() && s[p] == 13 && s[p + 1] == 10 {
        2
    } else {
        0
    }
}

/// First position at or after `p` holding `\r` or `\n`, or the end.
pub open spec fn break_pos(s: Seq<u8>, p: int) -> int
    decreases s.len() - p,
{
    if p < 0 {
        break_pos(s, 0)
    } else if p >= s.len() {
        s.len() as int
    } else if is_break(s[p]) {
        p
    } else {
        break_pos(s, p + 1)
    }
}

/// First position at or after `p` whose byte is not a space or tab.
pub open spec fn spaces_end(s: Seq<u8>, p: int) -> int
    decreases s.len() - p,
{
    if p < 0 {
        spaces_end(s, 0)
    } else if p < s.len() && is_space(s[p]) {
        spaces_end(s, p + 1)
    } else {
        p
    }
}

/// First position at or after `p` holding `d`, `\r` or `\n`, or the end.
pub open spec fn delim_pos(s: Seq<u8>, p: int, d: u8) -> int
    decreases s.len() - p,
{
    if p < 0 {
        delim_pos(s, 0, d)
    } else if p >= s.len() {
        s.len() as int
    } else if s[p] == d || is_break(s[p]) {
        p
    } else {
        delim_pos(s, p + 1, d)
    }
}

pub proof fn lemma_break_pos_bounds(s: Seq<u8>, p: int)
    requires
        0 <= p <= s.len(),
    ensures
        p <= break_pos(s, p) <= s.len(),
    decreases s.len() - p,
{
    if p < s.len() && !is_break(s[p]) {
        lemma_break_pos_bounds(s, p + 1);
    }
}

pub proof fn lemma_spaces_end_bounds(s: Seq<u8>, p: int)
    requires
        0 <= p <= s.len(),
    ensures
        p <= spaces_end(s, p) <= s.len(),
    decreases s.len() - p,
{
    if p < s.len() && is_space(s[p]) {
        lemma_spaces_end_bounds(s, p + 1);
    }
}

pub proof fn lemma_delim_pos_bounds(s: Seq<u8>, p: int, d: u8)
    requires
        0 <= p <= s.len(),
    ensures
        p <= delim_pos(s, p, d) <= s.len(),
    decreases s.len() - p,
{
    if p < s.len() && !(s[p] == d || is_break(s[p])) {
        lemma_delim_pos_bounds(s, p + 1, d);
    }
}

pub open spec fn match_at(s: Seq<u8>, p: int, kw: Seq<u8>) -> bool {
    &&& 0 <= p
    &&& p + kw.len() <= s.len()
    &&& s.subrange(p, p + kw.len()) == kw
}

pub open spec fn kw_pragma() -> Seq<u8> {
    seq![35u8, 112u8, 114u8, 97u8, 103u8, 109u8, 97u8]
}

pub open spec fn kw_once() -> Seq<u8> {
    seq![111u8, 110u8, 99u8, 101u8]
}

pub open spec fn kw_inc_directive() -> Seq<u8> {
    seq![35u8, 105u8, 110u8, 99u8, 108u8, 117u8, 100u8, 101u8]
}

/// `#pragma` + spaces + `once` + optional spaces + terminator.
pub open spec fn pragma_next(s: Seq<u8>, p: int) -> Option<int> {
    if !match_at(s, p, kw_pragma()) {
        None
    } else {
        let q1 = spaces_end(s, p + 7);
        if q1 == p + 7 {
            None
        } else if !match_at(s, q1, kw_once()) {
            None
        } else {
            let q3 = spaces_end(s, q1 + 4);
            let el = ending_len(s, q3);
            if el == 0 {
                None
            } else {
                Some(q3 + el)
            }
        }
    }
}

/// Everything up to the next break, with its terminator if present.  Fails
/// (None) on a bare `\r` that no `\n` follows.
pub open spec fn text_next(s: Seq<u8>, p: int) -> Option<int> {
    let b = break_pos(s, p);
    if b < s.len() && s[b] == 13 && !(b + 1 < s.len() && s[b + 1] == 10) {
        None
    } else {
        Some(b + ending_len(s, b))
    }
}

/// A delimited target `open target close` with a non-empty target free of
/// the closing delimiter and of line breaks; yields the target bytes and
/// the position just past the closing delimiter.
pub open spec fn delim_target(s: Seq<u8>, p: int, open: u8, close: u8) -> Option<(Seq<u8>, int)> {
    if 0 <= p < s.len() && s[p] == open {
        let e = delim_pos(s, p + 1, close);
        if e > p + 1 && e < s.len() && s[e] == close {
            Some((s.subrange(p + 1, e), e + 1))
        } else {
            None
        }
    } else {
        None
    }
}

/// `#include` + spaces + delimited target + optional spaces + terminator.
pub open spec fn inc_parse(s: Seq<u8>, p: int) -> Option<(bool, Seq<u8>, int)> {
    if !match_at(s, p, kw_inc_directive()) {
        None
    } else {
        let q1 = spaces_end(s, p + 8);
        if q1 == p + 8 {
            None
        } else {
            let parsed = if delim_target(s, q1, 60, 62) is Some {
                Some((true, delim_target(s, q1, 60, 62)->Some_0))
            } else if delim_target(s, q1, 34, 34) is Some {
                Some((false, delim_target(s, q1, 34, 34)->Some_0))
            } else {
                None
            };
            match parsed {
                None => None,
                Some((angle, (target, after))) => {
                    let q3 = spaces_end(s, after);
                    let el = ending_len(s, q3);
                    if el == 0 {
                        None
                    } else {
                        Some((angle, target, q3 + el))
                    }
                },
            }
        }
    }
}

/// The grammar: once-guard first, then the include directive, then the
/// text fallback, which catches every line the directives do not,
/// malformed directive-shaped lines included.
pub open spec fn classify(s: Seq<u8>, p: int) -> LineClass {
    match pragma_next(s, p) {
        Some(next) => LineClass::PragmaOnce { next },
        None => match inc_parse(s, p) {
            Some((angle, target, next)) => LineClass::Include { angle, target, next },
            None => match text_next(s, p) {
                Some(next) => LineClass::Text { next },
                None => LineClass::Malformed,
            },
        },
    }
}

/// The class an exec classification result stands for.
pub open spec fn line_class_of(line: Line, next: int) -> LineClass {
    match line {
        Line::Text => LineClass::Text { next },
        Line::PragmaOnce => LineClass::PragmaOnce { next },
        Line::Include(IncludePath::Angle(t)) => (LineClass::Include {
            angle: true,
            target: t@,
            next,
        }),
        Line::Include(IncludePath::Quote(t)) => (LineClass::Include {
            angle: false,
            target: t@,
            next,
        }),
    }
}

/// Position just past the line starting at `p`, whatever its class; the
/// lower bound is strict except for the empty text line at the very end.
pub open spec fn class_next(s: Seq<u8>, p: int) -> int {
    match classify(s, p) {
        LineClass::Text { next } => next,
        LineClass::PragmaOnce { next } => next,
        LineClass::Include { next, .. } => next,
        LineClass::Malformed => p,
    }
}

/// A classified line always reaches past its starting position, and never
/// past the end of the input.
pub proof fn lemma_classify_advances(s: Seq<u8>, p: int)
    requires
        0 <= p < s.len(),
    ensures
        match classify(s, p) {
            LineClass::Text { next } => p < next <= s.len(),
            LineClass::PragmaOnce { next } => p < next <= s.len(),
            LineClass::Include { next, .. } => p < next <= s.len(),
            LineClass::Malformed => true,
        },
{
    match classify(s, p) {
        LineClass::PragmaOnce { next } => {
            lemma_spaces_end_bounds(s, p + 7);
            let q1 = spaces_end(s, p + 7);
            lemma_spaces_end_bounds(s, q1 + 4);
        },
        LineClass::Text { next } => {
            lemma_break_pos_bounds(s, p);
            let b = break_pos(s, p);
            if b == p {
                if !is_break(s[p]) {
                    lemma_break_pos_bounds(s, p + 1);
                }
                assert(is_break(s[p]));
                assert(ending_len(s, b) > 0);
            }
        },
        LineClass::Include { next, .. } => {
            lemma_spaces_end_bounds(s, p + 8);
            let q1 = spaces_end(s, p + 8);
            if delim_target(s, q1, 60, 62) is Some {
                lemma_delim_pos_bounds(s, q1 + 1, 62);
                let after = delim_target(s, q1, 60, 62)->Some_0.1;
                lemma_spaces_end_bounds(s, after);
            } else {
                lemma_delim_pos_bounds(s, q1 + 1, 34);
                let after = delim_target(s, q1, 34, 34)->Some_0.1;
                lemma_spaces_end_bounds(s, after);
            }
        },
        LineClass::Malformed => {},
    }
}

fn bytes_at(s: &[u8], pos: usize, kw: &[u8]) -> (r: bool)
    requires
        pos <= s@.len(),
    ensures
        r == match_at(s@, pos as int, kw@),
{
    if s.len() - pos < kw.len() {
        return false;
    }
    let mut i: usize = 0;
    while i < kw.len()
        invariant
            0 <= i <= kw@.len(),
            pos + kw@.len() <= s@.len(),
            s@.len() <= usize::MAX,
            forall|j: int| 0 <= j < i ==> s@[pos + j] == kw@[j],
        decreases kw@.len() - i,
    {
        if s[pos + i] != kw[i] {
            assert(s@.subrange(pos as int, pos + kw@.len())[i as int] != kw@[i as int]);
            return false;
        }
        i += 1;
    }
    assert(s@.subrange(pos as int, pos + kw@.len()) =~= kw@);
    true
}

fn find_break(s: &[u8], pos: usize) -> (r: usize)
    requires
        pos <= s@.len(),
    ensures
        r == break_pos(s@, pos as int),
        pos <= r <= s@.len(),
{
    let mut i: usize = pos;
    while i < s.len()
        invariant
            pos <= i <= s@.len(),
            break_pos(s@, pos as int) == break_pos(s@, i as int),
        decreases s@.len() - i,
    {
        let c = s[i];
        if c == 10 || c == 13 {
            return i;
        }
        i += 1;
    }
    i
}

fn find_spaces_end(s: &[u8], pos: usize) -> (r: usize)
    requires
        pos <= s@.len(),
    ensures
        r == spaces_end(s@, pos as int),
        pos <= r <= s@.len(),
{
    let mut i: usize = pos;
    while i < s.len() && (s[i] == 32 || s[i] == 9)
        invariant
            pos <= i <= s@.len(),
            spaces_end(s@, pos as int) == spaces_end(s@, i as int),
        decreases s@.len() - i,
    {
        i += 1;
    }
    i
}

fn find_delim(s: &[u8], pos: usize, d: u8) -> (r: usize)
    requires
        pos <= s@.len(),
    ensures
        r == delim_pos(s@, pos as int, d),
        pos <= r <= s@.len(),
{
    let mut i: usize = pos;
    while i < s.len()
        invariant
            pos <= i <= s@.len(),
            delim_pos(s@, pos as int, d) == delim_pos(s@, i as int, d),
        decreases s@.len() - i,
    {
        let c = s[i];
        if c == d || c == 10 || c == 13 {
            return i;
        }
        i += 1;
    }
    i
}

/// Length of the line terminator at `pos`, zero when there is none.
fn ending_at(s: &[u8], pos: usize) -> (r: usize)
    requires
        pos <= s@.len(),
    ensures
        r == ending_len(s@, pos as int),
        pos + r <= s@.len(),
{
    if pos < s.len() && s[pos] == 10 {
        1
    } else if pos < s.len() && s[pos] == 13 && pos + 1 < s.len() && s[pos + 1] == 10 {
        2
    } else {
        0
    }
}

fn copy_range(s: &[u8], start: usize, end: usize) -> (r: Vec<u8>)
    requires
        start <= end <= s@.len(),
    ensures
        r@ == s@.subrange(start as int, end as int),
{
    let mut out: Vec<u8> = Vec::new();
    let mut i: usize = start;
    while i < end
        invariant
            start <= i <= end <= s@.len(),
            out@ =~= s@.subrange(start as int, i as int),
        decreases end - i,
    {
        out.push(s[i]);
        assert(out@ =~= s@.subrange(start as int, i + 1));
        i += 1;
    }
    out
}

fn try_pragma(s: &[u8], pos: usize) -> (r: Option<usize>)
    requires
        pos <= s@.len(),
    ensures
        match r {
            Some(next) => (pragma_next(s@, pos as int) == Some(next as int) && pos < next
                <= s@.len()),
            None => pragma_next(s@, pos as int) is None,
        },
{
    let n = s.len();
    let kw_a: [u8; 7] = [35, 112, 114, 97, 103, 109, 97];
    if !bytes_at(s, pos, kw_a.as_slice()) {
        assert(kw_a@ =~= kw_pragma());
        return None;
    }
    assert(kw_a@ =~= kw_pragma());
    assert(pos + 7 <= n);
    let q0 = pos + 7;
    let q1 = find_spaces_end(s, q0);
    if q1 == q0 {
        return None;
    }
    let kw_b: [u8; 4] = [111, 110, 99, 101];
    if !bytes_at(s, q1, kw_b.as_slice()) {
        assert(kw_b@ =~= kw_once());
        return None;
    }
    assert(kw_b@ =~= kw_once());
    assert(q1 + 4 <= n);
    let q3 = find_spaces_end(s, q1 + 4);
    let el = ending_at(s, q3);
    if el == 0 {
        None
    } else {
        assert(q3 + el <= n);
        Some(q3 + el)
    }
}

fn try_text(s: &[u8], pos: usize) -> (r: Option<usize>)
    requires
        pos <= s@.len(),
    ensures
        match r {
            Some(next) => (text_next(s@, pos as int) == Some(next as int) && pos <= next
                <= s@.len()),
            None => text_next(s@, pos as int) is None,
        },
{
    let b = find_break(s, pos);
    if b < s.len() && s[b] == 13 && !(b + 1 < s.len() && s[b + 1] == 10) {
        return None;
    }
    let el = ending_at(s, b);
    Some(b + el)
}

fn try_delim_target(s: &[u8], pos: usize, open: u8, close: u8) -> (r: Option<(Vec<u8>, usize)>)
    requires
        pos <= s@.len(),
    ensures
        match r {
            Some((t, after)) => (delim_target(s@, pos as int, open, close) == Some(
                (t@, after as int),
            ) && pos < after <= s@.len()),
            None => delim_target(s@, pos as int, open, close) is None,
        },
{
    if pos < s.len() && s[pos] == open {
        let e = find_delim(s, pos + 1, close);
        if e > pos + 1 && e < s.len() && s[e] == close {
            let t = copy_range(s, pos + 1, e);
            Some((t, e + 1))
        } else {
            None
        }
    } else {
        None
    }
}

fn try_inc(s: &[u8], pos: usize) -> (r: Option<(Line, usize)>)
    requires
        pos <= s@.len(),
    ensures
        match r {
            Some((line, next)) => ({
                &&& line is Include
                &&& inc_parse(s@, pos as int) matches Some((angle, target, n))
                &&& line_class_of(line, next as int) == (LineClass::Include {
                    angle,
                    target,
                    next: n,
                })
                &&& n == next
                &&& pos < next <= s@.len()
            }),
            None => inc_parse(s@, pos as int) is None,
        },
{
    let n = s.len();
    let kw: [u8; 8] = [35, 105, 110, 99, 108, 117, 100, 101];
    if !bytes_at(s, pos, kw.as_slice()) {
        assert(kw@ =~= kw_inc_directive());
        return None;
    }
    assert(kw@ =~= kw_inc_directive());
    assert(pos + 8 <= n);
    let q1 = find_spaces_end(s, pos + 8);
    if q1 == pos + 8 {
        return None;
    }
    let angle_parse = try_delim_target(s, q1, 60, 62);
    let (is_angle, target, after): (bool, Vec<u8>, usize) = match angle_parse {
        Some((t, a)) => (true, t, a),
        None => {
            match try_delim_target(s, q1, 34, 34) {
                Some((t, a)) => (false, t, a),
                None => {
                    return None;
                },
            }
        },
    };
    let q3 = find_spaces_end(s, after);
    let el = ending_at(s, q3);
    if el == 0 {
        return None;
    }
    let path = if is_angle {
        IncludePath::Angle(target)
    } else {
        IncludePath::Quote(target)
    };
    assert(q3 + el <= n);
    Some((Line::Include(path), q3 + el))
}

/// Classifies the line starting at `pos`, returning the classification and
/// the position just past the line's terminator; `Err` marks a line that
/// the grammar cannot classify at all.
pub fn parse_line(input: &[u8], pos: usize) -> (r: Result<(Line, usize), Error>)
    requires
        pos <= input@.len(),
    ensures
        match r {
            Ok((line, next)) => (classify(input@, pos as int) == line_class_of(line, next as int)
                && pos <= next <= input@.len() && (pos < input@.len() ==> pos < next)),
            Err(_) => classify(input@, pos as int) is Malformed,
        },
{
    if let Some(next) = try_pragma(input, pos) {
        return Ok((Line::PragmaOnce, next));
    }
    if let Some((line, next)) = try_inc(input, pos) {
        return Ok((line, next));
    }
    match try_text(input, pos) {
        Some(next) => {
            proof {
                if (pos as int) < input@.len() && next == pos {
                    let b = break_pos(input@, pos as int);
                    lemma_break_pos_bounds(input@, pos as int);
                    if !is_break(input@[pos as int]) {
                        lemma_break_pos_bounds(input@, pos + 1);
                    }
                    assert(b == pos);
                    assert(is_break(input@[pos as int]));
                    assert(ending_len(input@, pos as int) != 0);
                    assert(false);
                }
            }
            Ok((Line::Text, next))
        },
        None => Err(Error),
    }
}

/// Where skipping past the next line terminator lands: the position just
/// past it, or the end when the rest has no well-formed terminator.
pub open spec fn skip_line_pos(s: Seq<u8>, p: int) -> int {
    let b = break_pos(s, p);
    let el = ending_len(s, b);
    if b < s.len() && s[b] == 13 && !(b + 1 < s.len() && s[b + 1] == 10) {
        s.len() as int
    } else if el == 0 {
        s.len() as int
    } else {
        b + el
    }
}

/// Advances past the next line terminator, or to the end of the input when
/// the remainder holds none.
pub fn skip_line(input: &[u8], pos: usize) -> (r: usize)
    requires
        pos <= input@.len(),
    ensures
        r == skip_line_pos(input@, pos as int),
        pos <= r <= input@.len(),
{
    let b = find_break(input, pos);
    if b < input.len() && input[b] == 13 && !(b + 1 < input.len() && input[b + 1] == 10) {
        return input.len();
    }
    let el = ending_at(input, b);
    if el == 0 {
        input.len()
    } else {
        b + el
    }
}

} // verus!

