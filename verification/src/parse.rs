//! Parsing a board from text.
//!
//! The text holds `n` lines separated by `'\n'`; each of the first `n`
//! lines holds exactly `n` decimal numbers separated by spaces, and any
//! further lines hold nothing but spaces. The numbers must form a
//! permutation of `0 .. n*n - 1`. Each failure mode is reported by its own
//! error, checked in a fixed order: row count, token syntax, row length,
//! value range, missing blank, duplicates.

use vstd::prelude::*;
use vstd::seq_lib::*;

verus! {

/// Why a board text was rejected.
#[derive(Debug, PartialEq, Eq, Clone, Copy)]
pub enum ParseError {
    /// Fewer than `n` lines, or a line after the first `n` holds a token.
    WrongRowCount,
    /// A token holds a character that is no decimal digit.
    InvalidToken,
    /// One of the first `n` lines does not hold exactly `n` tokens.
    WrongRowLength,
    /// A value lies outside `0 .. n*n - 1`.
    ValueOutOfRange,
    /// A value occurs twice.
    DuplicateValue,
    /// No cell holds 0.
    MissingBlank,
}

/// `s` split at every occurrence of `sep`: scanning left to right, a
/// separator ends the current piece. The result always holds at least one
/// piece; pieces may be empty.
pub open spec fn split_on(s: Seq<char>, sep: char) -> Seq<Seq<char>>
    decreases s.len(),
{
    if s.len() == 0 {
        seq![Seq::<char>::empty()]
    } else {
        let prev = split_on(s.drop_last(), sep);
        if s.last() == sep {
            prev.push(Seq::<char>::empty())
        } else {
            prev.update(prev.len() - 1, prev.last().push(s.last()))
        }
    }
}

/// The non-empty pieces of a piece list.
pub open spec fn keep_nonempty(pieces: Seq<Seq<char>>) -> Seq<Seq<char>> {
    pieces.filter(|t: Seq<char>| t.len() > 0)
}

/// The tokens of a line: its maximal non-empty chunks between spaces.
pub open spec fn tokens(line: Seq<char>) -> Seq<Seq<char>> {
    keep_nonempty(split_on(line, ' '))
}

/// A decimal digit.
pub open spec fn is_digit(c: char) -> bool {
    48 <= c as u32 && c as u32 <= 57
}

/// The value of a decimal digit.
pub open spec fn digit_val(c: char) -> nat {
    (c as u32 - 48) as nat
}

/// A non-empty, all-digit token.
pub open spec fn is_number(t: Seq<char>) -> bool {
    t.len() > 0 && forall|i: int| 0 <= i < t.len() ==> is_digit(#[trigger] t[i])
}

/// The numeric value of a digit string, most significant digit first.
pub open spec fn num_val(t: Seq<char>) -> nat
    decreases t.len(),
{
    if t.len() == 0 {
        0
    } else {
        num_val(t.drop_last()) * 10 + digit_val(t.last())
    }
}

/// The lines of a board text.
pub open spec fn board_lines(s: Seq<char>) -> Seq<Seq<char>> {
    split_on(s, '\n')
}

/// The tokens of the first `i` lines, flattened in reading order.
pub open spec fn flat_tokens_prefix(lines: Seq<Seq<char>>, i: int) -> Seq<Seq<char>>
    decreases i,
{
    if i <= 0 {
        Seq::<Seq<char>>::empty()
    } else {
        flat_tokens_prefix(lines, i - 1) + tokens(lines[i - 1])
    }
}

/// The tokens of the first `n` lines of a board text, in reading order.
pub open spec fn board_tokens(n: nat, s: Seq<char>) -> Seq<Seq<char>> {
    flat_tokens_prefix(board_lines(s), n as int)
}

/// The text offers `n` rows: at least `n` lines, and nothing but
/// whitespace after them.
pub open spec fn row_count_ok(n: nat, s: Seq<char>) -> bool {
    let lines = board_lines(s);
    &&& lines.len() >= n
    &&& forall|i: int| n <= i < lines.len() ==> tokens(#[trigger] lines[i]).len() == 0
}

/// Every token of the first `n` lines is a decimal number.
pub open spec fn tokens_numeric(n: nat, s: Seq<char>) -> bool {
    let lines = board_lines(s);
    forall|i: int, j: int|
        0 <= i < n && 0 <= j < tokens(lines[i]).len() ==> is_number(
            #[trigger] tokens(lines[i])[j],
        )
}

/// Each of the first `n` lines holds exactly `n` tokens.
pub open spec fn shape_ok(n: nat, s: Seq<char>) -> bool {
    forall|i: int| 0 <= i < n ==> tokens(#[trigger] board_lines(s)[i]).len() == n
}

/// Every value is below `n * n`.
pub open spec fn values_in_range(n: nat, s: Seq<char>) -> bool {
    let toks = board_tokens(n, s);
    forall|k: int| 0 <= k < toks.len() ==> num_val(#[trigger] toks[k]) < n * n
}

/// No value occurs twice.
pub open spec fn values_distinct(n: nat, s: Seq<char>) -> bool {
    let toks = board_tokens(n, s);
    forall|k1: int, k2: int|
        0 <= k1 < k2 < toks.len() ==> num_val(#[trigger] toks[k1]) != num_val(
            #[trigger] toks[k2],
        )
}

/// Some cell holds 0.
pub open spec fn has_blank(n: nat, s: Seq<char>) -> bool {
    let toks = board_tokens(n, s);
    exists|k: int| 0 <= k < toks.len() && num_val(#[trigger] toks[k]) == 0
}

/// A text that parses into a board: the values then form a permutation of
/// `0 .. n*n - 1`.
pub open spec fn parse_ok(n: nat, s: Seq<char>) -> bool {
    &&& row_count_ok(n, s)
    &&& tokens_numeric(n, s)
    &&& shape_ok(n, s)
    &&& values_in_range(n, s)
    &&& values_distinct(n, s)
    &&& has_blank(n, s)
}

/// The non-empty pieces of a single piece.
proof fn lemma_keep_nonempty_singleton(x: Seq<char>)
    ensures
        keep_nonempty(seq![x]) == if x.len() > 0 {
            seq![x]
        } else {
            Seq::<Seq<char>>::empty()
        },
{
    reveal_with_fuel(Seq::filter, 2);
    assert(seq![x].drop_last() =~= Seq::<Seq<char>>::empty());
    if x.len() > 0 {
        assert(keep_nonempty(seq![x]) =~= seq![x]);
    } else {
        assert(keep_nonempty(seq![x]) =~= Seq::<Seq<char>>::empty());
    }
}

/// `keep_nonempty` distributes over appending one piece.
pub proof fn lemma_keep_nonempty_push(pieces: Seq<Seq<char>>, x: Seq<char>)
    ensures
        keep_nonempty(pieces.push(x)) == keep_nonempty(pieces) + if x.len() > 0 {
            seq![x]
        } else {
            Seq::<Seq<char>>::empty()
        },
{
    assert(pieces.push(x) =~= pieces + seq![x]);
    Seq::filter_distributes_over_add(pieces, seq![x], |t: Seq<char>| t.len() > 0);
    lemma_keep_nonempty_singleton(x);
}

/// Appending one digit multiplies the value by ten and adds the digit.
pub proof fn lemma_num_val_extend(t: Seq<char>, k: int)
    requires
        0 <= k < t.len(),
    ensures
        num_val(t.take(k + 1)) == num_val(t.take(k)) * 10 + digit_val(t[k]),
{
    assert(t.take(k + 1).drop_last() =~= t.take(k));
    assert(t.take(k + 1).last() == t[k]);
}

/// Reading more digits never shrinks the value.
pub proof fn lemma_num_val_prefix_le(t: Seq<char>, k: int)
    requires
        0 <= k <= t.len(),
    ensures
        num_val(t.take(k)) <= num_val(t),
    decreases t.len() - k,
{
    if k == t.len() {
        assert(t.take(k) =~= t);
    } else {
        lemma_num_val_extend(t, k);
        lemma_num_val_prefix_le(t, k + 1);
    }
}

/// With `m` tokens per line, the first `i` lines flatten to `i * m`
/// tokens.
pub proof fn lemma_flat_len(lines: Seq<Seq<char>>, i: int, m: int)
    requires
        0 <= i,
        forall|l: int| 0 <= l < i ==> tokens(#[trigger] lines[l]).len() == m,
    ensures
        flat_tokens_prefix(lines, i).len() == i * m,
    decreases i,
{
    if i > 0 {
        lemma_flat_len(lines, i - 1, m);
        assert(tokens(lines[i - 1]).len() == m);
        assert((i - 1) * m + m == i * m) by (nonlinear_arith);
    } else {
        assert(i * m == 0) by (nonlinear_arith)
            requires
                i == 0,
        ;
    }
}

/// A longer flattening extends a shorter one.
pub proof fn lemma_flat_prefix_le(lines: Seq<Seq<char>>, a: int, b: int)
    requires
        a <= b,
    ensures
        flat_tokens_prefix(lines, a).len() <= flat_tokens_prefix(lines, b).len(),
    decreases b - a,
{
    if a < b {
        lemma_flat_prefix_le(lines, a, b - 1);
    }
}

/// Where a line's token lands in the flattened token list.
pub proof fn lemma_flat_index(lines: Seq<Seq<char>>, i: int, j: int, m: int)
    requires
        0 <= i < m,
        0 <= j < tokens(lines[i]).len(),
    ensures
        flat_tokens_prefix(lines, m)[flat_tokens_prefix(lines, i).len() + j] == tokens(
            lines[i],
        )[j],
        flat_tokens_prefix(lines, i).len() + j < flat_tokens_prefix(lines, m).len(),
    decreases m,
{
    if m == i + 1 {
    } else {
        lemma_flat_index(lines, i, j, m - 1);
    }
}

} // verus!
// Executable scanning.
verus! {

/// How one more character extends a split.
pub proof fn lemma_split_on_step(s: Seq<char>, sep: char, k: int)
    requires
        0 <= k < s.len(),
    ensures
        split_on(s.take(k + 1), sep) == ({
            let prev = split_on(s.take(k), sep);
            if s[k] == sep {
                prev.push(Seq::<char>::empty())
            } else {
                prev.update(prev.len() - 1, prev.last().push(s[k]))
            }
        }),
{
    assert(s.take(k + 1).drop_last() =~= s.take(k));
    assert(s.take(k + 1).last() == s[k]);
}

/// Every piece kept by `keep_nonempty` is non-empty.
pub proof fn lemma_keep_nonempty_elems(pieces: Seq<Seq<char>>, j: int)
    requires
        0 <= j < keep_nonempty(pieces).len(),
    ensures
        keep_nonempty(pieces)[j].len() > 0,
    decreases pieces.len(),
{
    reveal_with_fuel(Seq::filter, 2);
    if pieces.len() > 0 {
        lemma_keep_nonempty_push(pieces.drop_last(), pieces.last());
        assert(pieces.drop_last().push(pieces.last()) =~= pieces);
        let prev = keep_nonempty(pieces.drop_last());
        if j < prev.len() {
            lemma_keep_nonempty_elems(pieces.drop_last(), j);
        }
    }
}

/// Splits the text into its lines.
fn split_lines(chars: &Vec<char>) -> (r: Vec<Vec<char>>)
    ensures
        r.deep_view() == split_on(chars@, '\n'),
{
    let mut lines: Vec<Vec<char>> = Vec::new();
    let mut cur: Vec<char> = Vec::new();
    let n = chars.len();
    proof {
        assert(chars@.take(0) =~= Seq::<char>::empty());
        assert(split_on(chars@.take(0), '\n') =~= lines.deep_view().push(cur@));
    }
    for k in 0..n
        invariant
            n == chars@.len(),
            split_on(chars@.take(k as int), '\n') == lines.deep_view().push(cur@),
    {
        let c = chars[k];
        proof {
            lemma_split_on_step(chars@, '\n', k as int);
        }
        let ghost lines0 = lines.deep_view();
        let ghost cur0 = cur@;
        if c == '\n' {
            let finished = cur;
            cur = Vec::new();
            lines.push(finished);
            proof {
                assert(lines.deep_view() =~~= lines0.push(cur0));
                assert(split_on(chars@.take(k as int + 1), '\n') =~= lines.deep_view().push(
                    cur@,
                ));
            }
        } else {
            cur.push(c);
            proof {
                let prev = lines0.push(cur0);
                assert(prev.last() == cur0);
                assert(prev.update(prev.len() - 1, cur0.push(c)) =~= lines0.push(cur@));
            }
        }
    }
    proof {
        assert(chars@.take(n as int) =~= chars@);
    }
    lines.push(cur);
    proof {
        assert(lines.deep_view() =~~= split_on(chars@, '\n'));
    }
    lines
}

/// Collects the tokens of one line.
fn tokenize(line: &Vec<char>) -> (r: Vec<Vec<char>>)
    ensures
        r.deep_view() == tokens(line@),
{
    let mut toks: Vec<Vec<char>> = Vec::new();
    let mut cur: Vec<char> = Vec::new();
    let ghost mut completed: Seq<Seq<char>> = Seq::<Seq<char>>::empty();
    let n = line.len();
    proof {
        assert(line@.take(0) =~= Seq::<char>::empty());
        assert(split_on(line@.take(0), ' ') =~= completed.push(cur@));
        assert(toks.deep_view() =~= keep_nonempty(completed)) by {
            reveal_with_fuel(Seq::filter, 1);
        }
    }
    for k in 0..n
        invariant
            n == line@.len(),
            split_on(line@.take(k as int), ' ') == completed.push(cur@),
            toks.deep_view() == keep_nonempty(completed),
    {
        let c = line[k];
        proof {
            lemma_split_on_step(line@, ' ', k as int);
        }
        let ghost toks0 = toks.deep_view();
        let ghost cur0 = cur@;
        if c == ' ' {
            proof {
                lemma_keep_nonempty_push(completed, cur0);
            }
            let finished = cur;
            cur = Vec::new();
            if finished.len() > 0 {
                toks.push(finished);
                proof {
                    assert(toks.deep_view() =~~= toks0.push(cur0));
                    assert(toks.deep_view() =~= keep_nonempty(completed.push(cur0)));
                }
            } else {
                proof {
                    assert(keep_nonempty(completed) + Seq::<Seq<char>>::empty() =~= keep_nonempty(
                        completed,
                    ));
                }
            }
            proof {
                completed = completed.push(cur0);
                assert(split_on(line@.take(k as int + 1), ' ') =~= completed.push(cur@));
            }
        } else {
            cur.push(c);
            proof {
                let prev = completed.push(cur0);
                assert(prev.last() == cur0);
                assert(prev.update(prev.len() - 1, cur0.push(c)) =~= completed.push(cur@));
            }
        }
    }
    proof {
        assert(line@.take(n as int) =~= line@);
        lemma_keep_nonempty_push(completed, cur@);
    }
    let finished = cur;
    let ghost toks0 = toks.deep_view();
    if finished.len() > 0 {
        toks.push(finished);
        proof {
            assert(toks.deep_view() =~~= toks0.push(finished@));
            assert(toks.deep_view() =~= tokens(line@));
        }
    } else {
        proof {
            assert(keep_nonempty(completed) + Seq::<Seq<char>>::empty() =~= keep_nonempty(
                completed,
            ));
            assert(toks.deep_view() =~= tokens(line@));
        }
    }
    toks
}

/// Reads a decimal token; reports a value at or above `bound` without
/// finishing the read.
fn parse_token(t: &Vec<char>, bound: u128) -> (r: Option<usize>)
    requires
        is_number(t@),
        1 <= bound,
        bound <= usize::MAX as u128,
    ensures
        match r {
            Some(v) => v as nat == num_val(t@) && (v as nat) < bound as nat,
            None => num_val(t@) >= bound as nat,
        },
{
    let mut val: u128 = 0;
    let n = t.len();
    proof {
        assert(t@.take(0) =~= Seq::<char>::empty());
    }
    for k in 0..n
        invariant
            n == t@.len(),
            is_number(t@),
            1 <= bound <= usize::MAX as u128,
            val as nat == num_val(t@.take(k as int)),
            (val as nat) < bound as nat,
    {
        let c = t[k];
        let d = (c as u32) - 48;
        proof {
            lemma_num_val_extend(t@, k as int);
        }
        val = val * 10 + (d as u128);
        if val >= bound {
            proof {
                lemma_num_val_prefix_le(t@, k as int + 1);
            }
            return None;
        }
    }
    proof {
        assert(t@.take(n as int) =~= t@);
    }
    Some(val as usize)
}

} // verus!
// The board-text parser.
verus! {

/// The outcome the parser owes on a given text: the first failed check in
/// the fixed order, or none when the text parses.
pub open spec fn parse_outcome(n: nat, s: Seq<char>) -> Option<ParseError> {
    if !row_count_ok(n, s) {
        Some(ParseError::WrongRowCount)
    } else if !tokens_numeric(n, s) {
        Some(ParseError::InvalidToken)
    } else if !shape_ok(n, s) {
        Some(ParseError::WrongRowLength)
    } else if !values_in_range(n, s) {
        Some(ParseError::ValueOutOfRange)
    } else if !has_blank(n, s) {
        Some(ParseError::MissingBlank)
    } else if !values_distinct(n, s) {
        Some(ParseError::DuplicateValue)
    } else {
        None
    }
}

/// Reads the cell values of an `n`-by-`n` board from text. On success the
/// values are the text's numbers in reading order, and the second
/// component points at the cell holding 0.
pub(crate) fn parse_board_text(n: usize, chars: &Vec<char>) -> (r: Result<
    (Vec<usize>, usize),
    ParseError,
>)
    requires
        1 <= n,
        n * n <= usize::MAX,
    ensures
        match r {
            Ok(p) => {
                &&& parse_ok(n as nat, chars@)
                &&& p.0@.len() == n * n
                &&& forall|k: int|
                    0 <= k < p.0@.len() ==> (#[trigger] p.0@[k]) as nat == num_val(
                        board_tokens(n as nat, chars@)[k],
                    )
                &&& (p.1 as int) < p.0@.len()
                &&& p.0@[p.1 as int] == 0
            },
            Err(e) => parse_outcome(n as nat, chars@) == Some(e),
        },
        (r is Ok) <==> parse_ok(n as nat, chars@),
{
    let ghost s = chars@;
    let ghost nn = n as nat;
    let lines = split_lines(chars);
    let ghost lv = board_lines(s);
    proof {
        assert(lines.deep_view() == lv);
        assert(lines@.len() == lv.len());
    }
    // Row count: at least n lines, nothing but whitespace after them.
    if lines.len() < n {
        return Err(ParseError::WrongRowCount);
    }
    let num_lines = lines.len();
    let mut extra = n;
    while extra < num_lines
        invariant
            s == chars@,
            nn == n as nat,
            lines.deep_view() == lv,
            lv == board_lines(s),
            lines@.len() == lv.len(),
            num_lines == lines@.len(),
            n <= extra <= num_lines,
            forall|m: int| n <= m < extra ==> tokens(#[trigger] lv[m]).len() == 0,
        decreases num_lines - extra,
    {
        let t = tokenize(&lines[extra]);
        proof {
            assert(lines@[extra as int].deep_view() =~= lines@[extra as int]@);
            assert(tokens(lv[extra as int]) == t.deep_view());
        }
        if t.len() > 0 {
            return Err(ParseError::WrongRowCount);
        }
        extra = extra + 1;
    }
    proof {
        assert(row_count_ok(nn, s));
    }
    // Tokens of the first n lines.
    let mut toks: Vec<Vec<Vec<char>>> = Vec::new();
    for i in 0..n
        invariant
            s == chars@,
            nn == n as nat,
            lines.deep_view() == lv,
            lv == board_lines(s),
            lines@.len() == lv.len(),
            n <= lines@.len(),
            toks@.len() == i,
            forall|m: int| 0 <= m < i ==> (#[trigger] toks@[m]).deep_view() == tokens(lv[m]),
    {
        let t = tokenize(&lines[i]);
        proof {
            assert(lines@[i as int].deep_view() =~= lines@[i as int]@);
        }
        toks.push(t);
    }
    // Token syntax: every token is a decimal number.
    for i in 0..n
        invariant
            s == chars@,
            nn == n as nat,
            lv == board_lines(s),
            row_count_ok(nn, s),
            toks@.len() == n,
            forall|m: int| 0 <= m < n ==> (#[trigger] toks@[m]).deep_view() == tokens(lv[m]),
            forall|m: int, jj: int|
                0 <= m < i && 0 <= jj < tokens(lv[m]).len() ==> is_number(
                    #[trigger] tokens(lv[m])[jj],
                ),
    {
        let rlen = toks[i].len();
        proof {
            assert(rlen == tokens(lv[i as int]).len());
        }
        for j in 0..rlen
            invariant
                s == chars@,
                nn == n as nat,
                lv == board_lines(s),
                row_count_ok(nn, s),
                toks@.len() == n,
                i < n,
                rlen == tokens(lv[i as int]).len(),
                forall|m: int| 0 <= m < n ==> (#[trigger] toks@[m]).deep_view() == tokens(lv[m]),
                forall|m: int, jj: int|
                    0 <= m < i && 0 <= jj < tokens(lv[m]).len() ==> is_number(
                        #[trigger] tokens(lv[m])[jj],
                    ),
                forall|jj: int|
                    0 <= jj < j ==> is_number(#[trigger] tokens(lv[i as int])[jj]),
        {
            let tkn = &toks[i][j];
            proof {
                assert((#[trigger] toks@[i as int])@[j as int].deep_view() == tokens(
                    lv[i as int],
                )[j as int]);
                assert(tkn.deep_view() =~= tkn@);
                lemma_keep_nonempty_elems(split_on(lv[i as int], ' '), j as int);
            }
            let tlen = tkn.len();
            for ci in 0..tlen
                invariant
                    s == chars@,
                    nn == n as nat,
                    lv == board_lines(s),
                    row_count_ok(nn, s),
                    i < n,
                    j < tokens(lv[i as int]).len(),
                    tlen == tkn@.len(),
                    tkn@ == tokens(lv[i as int])[j as int],
                    forall|cc: int| 0 <= cc < ci ==> is_digit(#[trigger] tkn@[cc]),
            {
                let ch = tkn[ci];
                let d = ch as u32;
                if d < 48 || d > 57 {
                    proof {
                        assert(!is_number(tokens(lv[i as int])[j as int]));
                        assert(!tokens_numeric(nn, s));
                    }
                    return Err(ParseError::InvalidToken);
                }
            }
            proof {
                assert(is_number(tokens(lv[i as int])[j as int]));
            }
        }
    }
    proof {
        assert(tokens_numeric(nn, s));
    }
    // Shape: exactly n tokens per row.
    for i in 0..n
        invariant
            s == chars@,
            nn == n as nat,
            lv == board_lines(s),
            row_count_ok(nn, s),
            tokens_numeric(nn, s),
            toks@.len() == n,
            forall|m: int| 0 <= m < n ==> (#[trigger] toks@[m]).deep_view() == tokens(lv[m]),
            forall|m: int| 0 <= m < i ==> tokens(#[trigger] lv[m]).len() == n,
    {
        let rlen = toks[i].len();
        proof {
            assert(rlen == tokens(lv[i as int]).len());
        }
        if rlen != n {
            proof {
                assert(!shape_ok(nn, s));
            }
            return Err(ParseError::WrongRowLength);
        }
    }
    proof {
        assert(shape_ok(nn, s));
    }
    // Values: each token's number, in reading order, each below n * n.
    let bound: u128 = (n as u128) * (n as u128);
    proof {
        assert(bound as nat == nn * nn);
        lemma_flat_len(lv, n as int, n as int);
        assert(board_tokens(nn, s).len() == nn * nn);
    }
    let mut vals: Vec<usize> = Vec::new();
    for i in 0..n
        invariant
            s == chars@,
            nn == n as nat,
            lv == board_lines(s),
            row_count_ok(nn, s),
            tokens_numeric(nn, s),
            shape_ok(nn, s),
            toks@.len() == n,
            forall|m: int| 0 <= m < n ==> (#[trigger] toks@[m]).deep_view() == tokens(lv[m]),
            bound as nat == nn * nn,
            1 <= n,
            n * n <= usize::MAX,
            board_tokens(nn, s).len() == nn * nn,
            vals@.len() == flat_tokens_prefix(lv, i as int).len(),
            vals@.len() <= board_tokens(nn, s).len(),
            forall|k: int|
                0 <= k < vals@.len() ==> (#[trigger] vals@[k]) as nat == num_val(
                    board_tokens(nn, s)[k],
                ) && (vals@[k] as nat) < nn * nn,
    {
        proof {
            assert(tokens(lv[i as int]).len() == nn);
        }
        for j in 0..n
            invariant
                s == chars@,
                nn == n as nat,
                lv == board_lines(s),
                row_count_ok(nn, s),
                tokens_numeric(nn, s),
                shape_ok(nn, s),
                toks@.len() == n,
                i < n,
                forall|m: int| 0 <= m < n ==> (#[trigger] toks@[m]).deep_view() == tokens(lv[m]),
                bound as nat == nn * nn,
                1 <= n,
                n * n <= usize::MAX,
                board_tokens(nn, s).len() == nn * nn,
                tokens(lv[i as int]).len() == nn,
                vals@.len() == flat_tokens_prefix(lv, i as int).len() + j,
                forall|k: int|
                    0 <= k < vals@.len() ==> (#[trigger] vals@[k]) as nat == num_val(
                        board_tokens(nn, s)[k],
                    ) && (vals@[k] as nat) < nn * nn,
        {
            proof {
                lemma_flat_index(lv, i as int, j as int, n as int);
                assert((#[trigger] toks@[i as int])@[j as int].deep_view() == tokens(
                    lv[i as int],
                )[j as int]);
                assert(toks@[i as int]@[j as int].deep_view() =~= toks@[i as int]@[j as int]@);
            }
            let tkn = &toks[i][j];
            match parse_token(tkn, bound) {
                None => {
                    proof {
                        assert(!values_in_range(nn, s));
                    }
                    return Err(ParseError::ValueOutOfRange);
                },
                Some(v) => {
                    vals.push(v);
                },
            }
        }
        proof {
            assert(flat_tokens_prefix(lv, i as int + 1).len() == flat_tokens_prefix(
                lv,
                i as int,
            ).len() + nn);
            lemma_flat_prefix_le(lv, i as int + 1, n as int);
        }
    }
    proof {
        assert(vals@.len() == board_tokens(nn, s).len());
        assert forall|k: int| 0 <= k < board_tokens(nn, s).len() implies num_val(
            #[trigger] board_tokens(nn, s)[k],
        ) < nn * nn by {
            assert(vals@[k] as nat == num_val(board_tokens(nn, s)[k]) && (vals@[k] as nat) < nn
                * nn);
        }
        assert(values_in_range(nn, s));
    }
    // The blank.
    let total = vals.len();
    let mut zi: usize = 0;
    let mut found = false;
    while zi < total
        invariant_except_break
            zi <= total,
            forall|a: int| 0 <= a < zi ==> #[trigger] vals@[a] != 0,
            !found,
        invariant
            total == vals@.len(),
        ensures
            found ==> zi < total && vals@[zi as int] == 0,
            !found ==> forall|a: int| 0 <= a < total ==> #[trigger] vals@[a] != 0,
        decreases total - zi,
    {
        if vals[zi] == 0 {
            found = true;
            break ;
        }
        zi = zi + 1;
    }
    if !found {
        proof {
            assert(!has_blank(nn, s)) by {
                if has_blank(nn, s) {
                    let k0 = choose|k0: int|
                        0 <= k0 < board_tokens(nn, s).len() && num_val(
                            #[trigger] board_tokens(nn, s)[k0],
                        ) == 0;
                    assert(vals@[k0] as nat == 0);
                    assert(false);
                }
            }
        }
        return Err(ParseError::MissingBlank);
    }
    proof {
        assert(num_val(board_tokens(nn, s)[zi as int]) == 0);
        assert(has_blank(nn, s));
    }
    // Duplicates.
    for k in 0..total
        invariant
            s == chars@,
            nn == n as nat,
            lv == board_lines(s),
            row_count_ok(nn, s),
            tokens_numeric(nn, s),
            shape_ok(nn, s),
            values_in_range(nn, s),
            has_blank(nn, s),
            total == vals@.len(),
            vals@.len() == board_tokens(nn, s).len(),
            vals@.len() == n * n,
            zi < total,
            vals@[zi as int] == 0,
            forall|a: int|
                0 <= a < vals@.len() ==> (#[trigger] vals@[a]) as nat == num_val(
                    board_tokens(nn, s)[a],
                ),
            forall|a: int, b: int| 0 <= a < b < k ==> #[trigger] vals@[a] != #[trigger] vals@[b],
    {
        for k2 in 0..k
            invariant
                s == chars@,
                nn == n as nat,
                lv == board_lines(s),
                row_count_ok(nn, s),
                tokens_numeric(nn, s),
                shape_ok(nn, s),
                values_in_range(nn, s),
                has_blank(nn, s),
                total == vals@.len(),
                vals@.len() == board_tokens(nn, s).len(),
                vals@.len() == n * n,
                k < total,
                zi < total,
                vals@[zi as int] == 0,
                forall|a: int|
                    0 <= a < vals@.len() ==> (#[trigger] vals@[a]) as nat == num_val(
                        board_tokens(nn, s)[a],
                    ),
                forall|a: int| 0 <= a < k2 ==> #[trigger] vals@[a] != vals@[k as int],
        {
            if vals[k2] == vals[k] {
                proof {
                    assert(num_val(board_tokens(nn, s)[k2 as int]) == num_val(
                        board_tokens(nn, s)[k as int],
                    ));
                    assert(!values_distinct(nn, s));
                }
                return Err(ParseError::DuplicateValue);
            }
        }
    }
    proof {
        assert forall|k1: int, k2: int|
            0 <= k1 < k2 < board_tokens(nn, s).len() implies num_val(
            #[trigger] board_tokens(nn, s)[k1],
        ) != num_val(#[trigger] board_tokens(nn, s)[k2]) by {
            assert(vals@[k1] != vals@[k2]);
        }
        assert(values_distinct(nn, s));
        assert(parse_ok(nn, s));
    }
    Ok((vals, zi))
}

} // verus!
