//! The cursor: it walks a file's text with a directive's locator parameters
//! and ends on the span where the snippet goes.
use vstd::prelude::*;

use crate::parser::parameters::{has_kind, ParamKind, ParamModel, Parameters};
use crate::text::{
    after_line, contains, contains_between, find_from, find_line_end, find_pattern,
    lemma_after_line, lemma_find_from, lemma_line_end, line_at, line_end, lines_of,
    next_line_start, same_text, split_lines, texts_view, trim, trimmed,
};

verus! {

/// Where the cursor stands in a text.
///
/// `idx` is a character position and `selection_len` the number of
/// characters, from `idx` on, that the snippet replaces. `next_line` is where
/// the next line to visit starts. `found` turns false for good once a locator
/// finds nothing; the cursor then stands at the end of the text.
#[derive(Clone, Copy, PartialEq, Eq, Structural, Debug)]
pub struct CursorPosition {
    pub idx: usize,
    pub selection_len: usize,
    pub next_line: usize,
    pub found: bool,
}

/// The cursor of one directive on one text.
#[derive(Debug)]
pub struct CodeCursor {
    pub pos: CursorPosition,
}

/// The cursor before any locator.
pub open spec fn start_position() -> CursorPosition {
    CursorPosition { idx: 0, selection_len: 0, next_line: 0, found: true }
}

/// The cursor once a locator has found nothing in `t`.
pub open spec fn lost_position(t: Seq<char>) -> CursorPosition {
    CursorPosition { idx: t.len() as usize, selection_len: 0, next_line: t.len() as usize, found: false }
}

/// The first line that starts at or after the line start `q` and contains
/// `pat`, or -1.
pub open spec fn find_line(t: Seq<char>, q: int, pat: Seq<char>) -> int
    decreases t.len() - q via find_line_decreases
{
    if q < 0 || q >= t.len() {
        -1
    } else if contains(line_at(t, q), pat) {
        q
    } else {
        find_line(t, after_line(t, q), pat)
    }
}

#[via_fn]
proof fn find_line_decreases(t: Seq<char>, q: int, pat: Seq<char>) {
    if 0 <= q < t.len() {
        lemma_after_line(t, q);
    }
}

/// The first line that starts at or after the line start `q` and is followed
/// by a line that contains `pat`, or -1.
pub open spec fn find_above(t: Seq<char>, q: int, pat: Seq<char>) -> int
    decreases t.len() - q via find_above_decreases
{
    if q < 0 || q >= t.len() {
        -1
    } else if after_line(t, q) < t.len() && contains(line_at(t, after_line(t, q)), pat) {
        q
    } else {
        find_above(t, after_line(t, q), pat)
    }
}

#[via_fn]
proof fn find_above_decreases(t: Seq<char>, q: int, pat: Seq<char>) {
    if 0 <= q < t.len() {
        lemma_after_line(t, q);
    }
}

/// Where the run of lines from the line start `q` ends, when those lines
/// match, once trimmed, the trimmed lines `pl[i..]`; -1 when they do not.
pub open spec fn block_end(t: Seq<char>, q: int, pl: Seq<Seq<char>>, i: int) -> int
    decreases pl.len() - i,
{
    if i >= pl.len() {
        q
    } else if q < 0 || q >= t.len() {
        -1
    } else if trim(line_at(t, q)) == trim(pl[i]) {
        block_end(t, after_line(t, q), pl, i + 1)
    } else {
        -1
    }
}

/// The first line start at or after `q` where the lines `pl` match, or -1.
pub open spec fn find_block(t: Seq<char>, q: int, pl: Seq<Seq<char>>) -> int
    decreases t.len() - q via find_block_decreases
{
    if q < 0 || q >= t.len() {
        -1
    } else if block_end(t, q, pl, 0) >= 0 {
        q
    } else {
        find_block(t, after_line(t, q), pl)
    }
}

#[via_fn]
proof fn find_block_decreases(t: Seq<char>, q: int, pl: Seq<Seq<char>>) {
    if 0 <= q < t.len() {
        lemma_after_line(t, q);
    }
}

/// The cursor after one more parameter `p` on the text `t`.
///
/// - `at`: to the first line, from the next line to visit on, that contains
///   the pattern.
/// - `below`: to the line after that one.
/// - `above`: to the line right before the next line that contains the
///   pattern.
/// - `select`: to the first occurrence of the pattern from the cursor on,
///   selecting it; later line locators go on from the line where the
///   selection starts.
/// - multi-line `select`: to the first line, from the next line to visit on,
///   where the trimmed lines of the text match the trimmed lines of the
///   pattern, selecting those lines with their line feeds.
/// - any other parameter: no move.
///
/// A locator that finds nothing loses the cursor for good.
pub open spec fn step(t: Seq<char>, c: CursorPosition, p: ParamModel) -> CursorPosition {
    if !c.found {
        c
    } else {
        match p.0 {
            ParamKind::At => {
                let k = find_line(t, c.next_line as int, p.1);
                if k < 0 {
                    lost_position(t)
                } else {
                    CursorPosition { idx: k as usize, next_line: after_line(t, k) as usize, ..c }
                }
            },
            ParamKind::Below => {
                let k = find_line(t, c.next_line as int, p.1);
                if k < 0 || line_end(t, k) >= t.len() {
                    lost_position(t)
                } else {
                    let n = after_line(t, k);
                    CursorPosition {
                        idx: n as usize,
                        next_line: if n < t.len() {
                            after_line(t, n) as usize
                        } else {
                            n as usize
                        },
                        ..c
                    }
                }
            },
            ParamKind::Above => {
                let j = find_above(t, c.next_line as int, p.1);
                if j < 0 {
                    lost_position(t)
                } else {
                    CursorPosition { idx: j as usize, next_line: after_line(t, j) as usize, ..c }
                }
            },
            ParamKind::Select => {
                let m = find_from(t, c.idx as int, p.1);
                if m < 0 {
                    lost_position(t)
                } else {
                    CursorPosition {
                        idx: m as usize,
                        selection_len: p.1.len() as usize,
                        next_line: after_line(t, m) as usize,
                        found: true,
                    }
                }
            },
            ParamKind::MultilineSelect => {
                let pl = lines_of(trim(p.1));
                let j = find_block(t, c.next_line as int, pl);
                if j < 0 {
                    lost_position(t)
                } else {
                    CursorPosition {
                        idx: j as usize,
                        selection_len: (block_end(t, j, pl, 0) - j) as usize,
                        next_line: after_line(t, j) as usize,
                        found: true,
                    }
                }
            },
            _ => c,
        }
    }
}

/// The cursor after the parameters `ps`, in order, from `c`.
pub open spec fn walk(t: Seq<char>, c: CursorPosition, ps: Seq<ParamModel>) -> CursorPosition
    decreases ps.len(),
{
    if ps.len() == 0 {
        c
    } else {
        step(t, walk(t, c, ps.drop_last()), ps.last())
    }
}

/// Whether the cursor stands inside the text `t`.
pub open spec fn position_ok(t: Seq<char>, c: CursorPosition) -> bool {
    &&& c.idx <= c.next_line
    &&& c.idx <= t.len()
    &&& c.next_line <= t.len()
    &&& c.selection_len <= t.len()
}

proof fn lemma_find_line(t: Seq<char>, q: int, pat: Seq<char>)
    requires
        0 <= q,
    ensures
        find_line(t, q, pat) == -1 || (q <= find_line(t, q, pat) < t.len()),
    decreases t.len() - q,
{
    if q < t.len() && !contains(line_at(t, q), pat) {
        lemma_after_line(t, q);
        lemma_find_line(t, after_line(t, q), pat);
    }
}

proof fn lemma_find_above(t: Seq<char>, q: int, pat: Seq<char>)
    requires
        0 <= q,
    ensures
        find_above(t, q, pat) == -1 || (q <= find_above(t, q, pat) < t.len()),
    decreases t.len() - q,
{
    if q < t.len() {
        lemma_after_line(t, q);
        if !(after_line(t, q) < t.len() && contains(line_at(t, after_line(t, q)), pat)) {
            lemma_find_above(t, after_line(t, q), pat);
        }
    }
}

proof fn lemma_block_end(t: Seq<char>, q: int, pl: Seq<Seq<char>>, i: int)
    requires
        0 <= q <= t.len(),
    ensures
        block_end(t, q, pl, i) == -1 || (q <= block_end(t, q, pl, i) <= t.len()),
    decreases pl.len() - i,
{
    if i < pl.len() && q < t.len() && trim(line_at(t, q)) == trim(pl[i]) {
        lemma_after_line(t, q);
        lemma_block_end(t, after_line(t, q), pl, i + 1);
    }
}

proof fn lemma_find_block(t: Seq<char>, q: int, pl: Seq<Seq<char>>)
    requires
        0 <= q,
    ensures
        find_block(t, q, pl) == -1 || (q <= find_block(t, q, pl) < t.len()),
        find_block(t, q, pl) >= 0 ==> block_end(t, find_block(t, q, pl), pl, 0) >= 0,
    decreases t.len() - q,
{
    if q < t.len() && block_end(t, q, pl, 0) < 0 {
        lemma_after_line(t, q);
        lemma_find_block(t, after_line(t, q), pl);
    }
}

proof fn lemma_after_line_bound(t: Seq<char>, q: int)
    requires
        0 <= q <= t.len(),
    ensures
        q <= after_line(t, q) <= t.len(),
{
    lemma_line_end(t, q);
}

/// One locator never moves the cursor back, and leaves it no later than
/// the next line to visit.
pub proof fn lemma_step_forward(t: Seq<char>, c: CursorPosition, p: ParamModel)
    requires
        t.len() <= usize::MAX,
        position_ok(t, c),
    ensures
        c.idx <= step(t, c, p).idx,
        step(t, c, p).idx <= step(t, c, p).next_line,
        position_ok(t, step(t, c, p)),
{
    if c.found {
        let n = c.next_line as int;
        lemma_find_line(t, n, p.1);
        lemma_find_above(t, n, p.1);
        lemma_find_from(t, c.idx as int, p.1);
        let pl = lines_of(trim(p.1));
        lemma_find_block(t, n, pl);
        let k = find_line(t, n, p.1);
        if k >= 0 {
            lemma_after_line_bound(t, k);
            lemma_line_end(t, k);
            if after_line(t, k) < t.len() {
                lemma_after_line_bound(t, after_line(t, k));
            }
        }
        let j = find_above(t, n, p.1);
        if j >= 0 {
            lemma_after_line_bound(t, j);
        }
        let m = find_from(t, c.idx as int, p.1);
        if m >= 0 {
            lemma_after_line_bound(t, m);
        }
        let b = find_block(t, n, pl);
        if b >= 0 {
            lemma_after_line_bound(t, b);
            lemma_block_end(t, b, pl, 0);
        }
    }
}

/// The cursor never moves back: after more of the parameters it stands no
/// earlier than after fewer of them.
pub proof fn lemma_cursor_never_moves_back(t: Seq<char>, ps: Seq<ParamModel>, a: int, b: int)
    requires
        t.len() <= usize::MAX,
        0 <= a <= b <= ps.len(),
    ensures
        walk(t, start_position(), ps.subrange(0, a)).idx <= walk(
            t,
            start_position(),
            ps.subrange(0, b),
        ).idx,
    decreases b - a,
{
    if a < b {
        lemma_walk_ordered(t, ps.subrange(0, b - 1));
        assert(ps.subrange(0, b).drop_last() =~= ps.subrange(0, b - 1));
        lemma_step_forward(t, walk(t, start_position(), ps.subrange(0, b - 1)), ps[b - 1]);
        lemma_cursor_never_moves_back(t, ps, a, b - 1);
    }
}

proof fn lemma_walk_ordered(t: Seq<char>, ps: Seq<ParamModel>)
    requires
        t.len() <= usize::MAX,
    ensures
        position_ok(t, walk(t, start_position(), ps)),
        walk(t, start_position(), ps).idx <= walk(t, start_position(), ps).next_line,
    decreases ps.len(),
{
    if ps.len() > 0 {
        lemma_walk_ordered(t, ps.drop_last());
        lemma_step_forward(t, walk(t, start_position(), ps.drop_last()), ps.last());
    }
}

/// Whether a line starts at position `i` of `t`.
pub open spec fn line_start(t: Seq<char>, i: int) -> bool {
    i == 0 || (0 < i <= t.len() && t[i - 1] == '\n')
}

/// Whether a found cursor stands at a line start with nothing selected, and
/// its next line to visit starts a line or is the end of the text.
pub open spec fn on_line_start(t: Seq<char>, c: CursorPosition) -> bool {
    c.found ==> line_start(t, c.idx as int) && c.selection_len == 0 && (line_start(
        t,
        c.next_line as int,
    ) || c.next_line == t.len())
}

proof fn lemma_after_line_start(t: Seq<char>, q: int)
    requires
        0 <= q < t.len(),
    ensures
        line_start(t, after_line(t, q)) || after_line(t, q) == t.len(),
{
    lemma_line_end(t, q);
}

proof fn lemma_find_line_start(t: Seq<char>, q: int, pat: Seq<char>)
    requires
        0 <= q,
        line_start(t, q) || q >= t.len(),
    ensures
        find_line(t, q, pat) >= 0 ==> line_start(t, find_line(t, q, pat)),
    decreases t.len() - q,
{
    if q < t.len() && !contains(line_at(t, q), pat) {
        lemma_after_line(t, q);
        lemma_after_line_start(t, q);
        lemma_find_line_start(t, after_line(t, q), pat);
    }
}

proof fn lemma_find_above_start(t: Seq<char>, q: int, pat: Seq<char>)
    requires
        0 <= q,
        line_start(t, q) || q >= t.len(),
    ensures
        find_above(t, q, pat) >= 0 ==> line_start(t, find_above(t, q, pat)),
    decreases t.len() - q,
{
    if q < t.len() {
        lemma_after_line(t, q);
        lemma_after_line_start(t, q);
        if !(after_line(t, q) < t.len() && contains(line_at(t, after_line(t, q)), pat)) {
            lemma_find_above_start(t, after_line(t, q), pat);
        }
    }
}

proof fn lemma_step_on_line_start(t: Seq<char>, c: CursorPosition, p: ParamModel)
    requires
        t.len() <= usize::MAX,
        position_ok(t, c),
        on_line_start(t, c),
        p.0 != ParamKind::Select,
        p.0 != ParamKind::MultilineSelect,
    ensures
        on_line_start(t, step(t, c, p)),
{
    lemma_step_forward(t, c, p);
    if c.found {
        let n = c.next_line as int;
        lemma_find_line(t, n, p.1);
        lemma_find_above(t, n, p.1);
        lemma_find_line_start(t, n, p.1);
        lemma_find_above_start(t, n, p.1);
        let k = find_line(t, n, p.1);
        if k >= 0 {
            lemma_after_line(t, k);
            lemma_after_line_start(t, k);
            lemma_line_end(t, k);
            let m = after_line(t, k);
            if m < t.len() {
                lemma_after_line(t, m);
                lemma_after_line_start(t, m);
            }
        }
        let j = find_above(t, n, p.1);
        if j >= 0 {
            lemma_after_line(t, j);
            lemma_after_line_start(t, j);
        }
    }
}

/// Line locators leave a found cursor at a line start with nothing
/// selected: after parameters with no `select`, the cursor either found no
/// location or stands where a line starts.
pub proof fn lemma_line_locators_at_line_start(t: Seq<char>, ps: Seq<ParamModel>)
    requires
        t.len() <= usize::MAX,
        !has_kind(ps, ParamKind::Select),
        !has_kind(ps, ParamKind::MultilineSelect),
    ensures
        on_line_start(t, walk(t, start_position(), ps)),
        position_ok(t, walk(t, start_position(), ps)),
    decreases ps.len(),
{
    lemma_walk_ordered(t, ps);
    if ps.len() > 0 {
        let init = ps.drop_last();
        assert(!has_kind(init, ParamKind::Select)) by {
            if has_kind(init, ParamKind::Select) {
                let i = choose|i: int| 0 <= i < init.len() && #[trigger] init[i].0 == ParamKind::Select;
                assert(ps[i].0 == ParamKind::Select);
            }
        }
        assert(!has_kind(init, ParamKind::MultilineSelect)) by {
            if has_kind(init, ParamKind::MultilineSelect) {
                let i = choose|i: int| 0 <= i < init.len() && #[trigger] init[i].0 == ParamKind::MultilineSelect;
                assert(ps[i].0 == ParamKind::MultilineSelect);
            }
        }
        assert(ps[ps.len() - 1].0 != ParamKind::Select);
        assert(ps[ps.len() - 1].0 != ParamKind::MultilineSelect);
        lemma_line_locators_at_line_start(t, init);
        lemma_step_on_line_start(t, walk(t, start_position(), init), ps.last());
    }
}

/// The first line at or after the line start `q` that contains `pat`.
fn seek_line(t: &Vec<char>, q: usize, pat: &Vec<char>) -> (r: Option<usize>)
    requires
        q <= t@.len(),
    ensures
        match r {
            Some(k) => k == find_line(t@, q as int, pat@),
            None => find_line(t@, q as int, pat@) == -1,
        },
{
    let mut j = q;
    while j < t.len()
        invariant
            j <= t@.len(),
            find_line(t@, j as int, pat@) == find_line(t@, q as int, pat@),
        decreases t@.len() - j,
    {
        let e = find_line_end(t, j);
        proof {
            lemma_line_end(t@, j as int);
            lemma_after_line(t@, j as int);
        }
        if contains_between(t, j, e, pat) {
            return Some(j);
        }
        j = next_line_start(t, j);
    }
    None
}

/// The first line start at or after `q` whose next line contains `pat`.
fn seek_above(t: &Vec<char>, q: usize, pat: &Vec<char>) -> (r: Option<usize>)
    requires
        q <= t@.len(),
    ensures
        match r {
            Some(k) => k == find_above(t@, q as int, pat@),
            None => find_above(t@, q as int, pat@) == -1,
        },
{
    let mut j = q;
    while j < t.len()
        invariant
            j <= t@.len(),
            find_above(t@, j as int, pat@) == find_above(t@, q as int, pat@),
        decreases t@.len() - j,
    {
        proof {
            lemma_after_line(t@, j as int);
        }
        let k = next_line_start(t, j);
        if k < t.len() {
            let e = find_line_end(t, k);
            proof {
                lemma_line_end(t@, k as int);
            }
            if contains_between(t, k, e, pat) {
                return Some(j);
            }
        }
        j = k;
    }
    None
}

/// Where the lines from `q` on stop matching the trimmed lines `tl`, or
/// `None` when they do not all match.
fn match_block(t: &Vec<char>, q: usize, pl: Ghost<Seq<Seq<char>>>, tl: &Vec<Vec<char>>) -> (r:
    Option<usize>)
    requires
        q <= t@.len(),
        tl@.len() == pl@.len(),
        forall|i: int| 0 <= i < tl@.len() ==> tl@[i]@ == trim(pl@[i]),
    ensures
        match r {
            Some(e) => e == block_end(t@, q as int, pl@, 0),
            None => block_end(t@, q as int, pl@, 0) == -1,
        },
{
    let mut j = q;
    let mut i: usize = 0;
    while i < tl.len()
        invariant
            j <= t@.len(),
            i <= tl@.len(),
            tl@.len() == pl@.len(),
            forall|i: int| 0 <= i < tl@.len() ==> tl@[i]@ == trim(pl@[i]),
            block_end(t@, j as int, pl@, i as int) == block_end(t@, q as int, pl@, 0),
        decreases tl@.len() - i,
    {
        if j >= t.len() {
            return None;
        }
        let e = find_line_end(t, j);
        proof {
            lemma_line_end(t@, j as int);
            lemma_after_line(t@, j as int);
        }
        let line = crate::text::slice_of(t, j, e);
        let tline = trimmed(&line);
        if !same_text(&tline, &tl[i]) {
            return None;
        }
        j = next_line_start(t, j);
        i = i + 1;
    }
    Some(j)
}

impl CursorPosition {
    /// The cursor before any locator.
    pub fn new() -> (r: CursorPosition)
        ensures
            r == start_position(),
    {
        CursorPosition { idx: 0, selection_len: 0, next_line: 0, found: true }
    }

    /// The cursor once a locator has found nothing in `t`.
    fn lost(t: &Vec<char>) -> (r: CursorPosition)
        ensures
            r == lost_position(t@),
    {
        CursorPosition { idx: t.len(), selection_len: 0, next_line: t.len(), found: false }
    }

    /// Applies one parameter.
    pub fn step(&mut self, t: &Vec<char>, p: ParamKind, pat: &Vec<char>)
        requires
            position_ok(t@, *old(self)),
        ensures
            *final(self) == step(t@, *old(self), (p, pat@)),
            position_ok(t@, *final(self)),
            old(self).idx <= final(self).idx,
    {
        let size = t.len();
        proof {
            lemma_step_forward(t@, *self, (p, pat@));
        }
        if !self.found {
            return;
        }
        match p {
            ParamKind::At => {
                proof {
                    lemma_find_line(t@, self.next_line as int, pat@);
                }
                match seek_line(t, self.next_line, pat) {
                    None => {
                        *self = CursorPosition::lost(t);
                    },
                    Some(k) => {
                        proof {
                            lemma_line_end(t@, k as int);
                        }
                        self.idx = k;
                        self.next_line = next_line_start(t, k);
                    },
                }
            },
            ParamKind::Below => {
                proof {
                    lemma_find_line(t@, self.next_line as int, pat@);
                }
                match seek_line(t, self.next_line, pat) {
                    None => {
                        *self = CursorPosition::lost(t);
                    },
                    Some(k) => {
                        proof {
                            lemma_line_end(t@, k as int);
                        }
                        let e = find_line_end(t, k);
                        if e >= t.len() {
                            *self = CursorPosition::lost(t);
                        } else {
                            let n = e + 1;
                            self.idx = n;
                            if n < t.len() {
                                self.next_line = next_line_start(t, n);
                                proof {
                                    lemma_after_line(t@, n as int);
                                }
                            } else {
                                self.next_line = n;
                            }
                        }
                    },
                }
            },
            ParamKind::Above => {
                proof {
                    lemma_find_above(t@, self.next_line as int, pat@);
                }
                match seek_above(t, self.next_line, pat) {
                    None => {
                        *self = CursorPosition::lost(t);
                    },
                    Some(j) => {
                        proof {
                            lemma_after_line(t@, j as int);
                        }
                        self.idx = j;
                        self.next_line = next_line_start(t, j);
                    },
                }
            },
            ParamKind::Select => {
                proof {
                    lemma_find_from(t@, self.idx as int, pat@);
                }
                match find_pattern(t, self.idx, pat) {
                    None => {
                        *self = CursorPosition::lost(t);
                    },
                    Some(m) => {
                        proof {
                            lemma_line_end(t@, m as int);
                        }
                        self.idx = m;
                        self.selection_len = pat.len();
                        self.next_line = next_line_start(t, m);
                        self.found = true;
                    },
                }
            },
            ParamKind::MultilineSelect => {
                let lines = split_lines(&trimmed(pat));
                let ghost pl = texts_view(lines@);
                let mut tl: Vec<Vec<char>> = Vec::new();
                let mut i: usize = 0;
                while i < lines.len()
                    invariant
                        i <= lines@.len(),
                        pl == texts_view(lines@),
                        tl@.len() == i,
                        forall|j: int| 0 <= j < i ==> tl@[j]@ == trim(pl[j]),
                    decreases lines@.len() - i,
                {
                    tl.push(trimmed(&lines[i]));
                    i = i + 1;
                }
                let mut j = self.next_line;
                let ghost start = self.next_line;
                let mut hit: Option<(usize, usize)> = None;
                while j < t.len()
                    invariant_except_break
                        hit is None,
                    invariant
                        j <= t@.len(),
                        tl@.len() == pl.len(),
                        forall|j: int| 0 <= j < tl@.len() ==> tl@[j]@ == trim(pl[j]),
                        find_block(t@, j as int, pl) == find_block(t@, start as int, pl),
                    ensures
                        match hit {
                            Some((k, e)) => k == find_block(t@, start as int, pl) && e
                                == block_end(t@, k as int, pl, 0),
                            None => find_block(t@, start as int, pl) == -1,
                        },
                    decreases t@.len() - j,
                {
                    proof {
                        lemma_after_line(t@, j as int);
                        lemma_block_end(t@, j as int, pl, 0);
                    }
                    match match_block(t, j, Ghost(pl), &tl) {
                        Some(e) => {
                            hit = Some((j, e));
                            break;
                        },
                        None => {},
                    }
                    j = next_line_start(t, j);
                }
                match hit {
                    None => {
                        *self = CursorPosition::lost(t);
                    },
                    Some((j, e)) => {
                        proof {
                            lemma_find_block(t@, start as int, pl);
                            lemma_after_line(t@, j as int);
                            lemma_block_end(t@, j as int, pl, 0);
                        }
                        self.idx = j;
                        self.selection_len = e - j;
                        self.next_line = next_line_start(t, j);
                        self.found = true;
                    },
                }
            },
            _ => {},
        }
    }
}

impl CodeCursor {
    /// Moves the cursor by each parameter of `params`, in order, on the text
    /// `file`.
    pub fn advance(&mut self, params: &Parameters, file: &Vec<char>)
        requires
            position_ok(file@, old(self).pos),
        ensures
            final(self).pos == walk(file@, old(self).pos, params@),
            position_ok(file@, final(self).pos),
            old(self).pos.idx <= final(self).pos.idx,
    {
        let ps = params.all();
        let mut i: usize = 0;
        let ghost start = self.pos;
        while i < ps.len()
            invariant
                i <= ps@.len(),
                ps@.map_values(|p: crate::parser::parameters::Parameter| p@) == params@,
                self.pos == walk(file@, start, params@.subrange(0, i as int)),
                position_ok(file@, self.pos),
                start.idx <= self.pos.idx,
            decreases ps@.len() - i,
        {
            let p = &ps[i];
            let pat = crate::text::chars_of(p.value().as_str());
            self.pos.step(file, p.kind(), &pat);
            assert(params@.subrange(0, i + 1).drop_last() =~= params@.subrange(0, i as int));
            i = i + 1;
        }
        assert(params@.subrange(0, ps@.len() as int) =~= params@);
    }

    /// The cursor of `params` on the text `file`.
    pub fn from_parameters(params: &Parameters, file: &Vec<char>) -> (r: CodeCursor)
        ensures
            r.pos == walk(file@, start_position(), params@),
            position_ok(file@, r.pos),
    {
        let mut s = CodeCursor { pos: CursorPosition::new() };
        s.advance(params, file);
        s
    }
}

} // verus!
