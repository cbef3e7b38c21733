//! The text form of a grid: one token per cell, row by row, a decimal number
//! for a digit and `_` for an empty cell.

use crate::grid::{before, in_range, lemma_cell_order, shaped, Grid};
use vstd::prelude::*;
use vstd::string::StringExecFns;

verus! {

/// The character that stands for an empty cell.
pub open spec fn placeholder() -> char {
    '_'
}

/// The character of a decimal digit.
pub open spec fn digit_char(d: int) -> char {
    if d == 0 {
        '0'
    } else if d == 1 {
        '1'
    } else if d == 2 {
        '2'
    } else if d == 3 {
        '3'
    } else if d == 4 {
        '4'
    } else if d == 5 {
        '5'
    } else if d == 6 {
        '6'
    } else if d == 7 {
        '7'
    } else if d == 8 {
        '8'
    } else {
        '9'
    }
}

/// The decimal notation of `v`, without leading zeros.
pub open spec fn decimal(v: nat) -> Seq<char>
    decreases v,
{
    if v < 10 {
        seq![digit_char(v as int)]
    } else {
        decimal(v / 10).push(digit_char((v % 10) as int))
    }
}

/// The token of a cell.
pub open spec fn cell_text(cell: Option<u8>) -> Seq<char> {
    match cell {
        Some(v) => decimal(v as nat),
        None => seq![placeholder()],
    }
}

/// The tokens of the first `c` cells of row `r`, a space after each.
pub open spec fn row_text(g: Grid, r: int, c: int) -> Seq<char>
    decreases c,
{
    if c <= 0 {
        Seq::empty()
    } else {
        row_text(g, r, c - 1) + cell_text(g[r][c - 1]).push(' ')
    }
}

/// The tokens of the first `r` rows of a grid of side `n`.
pub open spec fn rows_text(g: Grid, n: int, r: int) -> Seq<char>
    decreases r,
{
    if r <= 0 {
        Seq::empty()
    } else {
        rows_text(g, n, r - 1) + row_text(g, r - 1, n)
    }
}

/// The literal of a grid of side `n`: every cell's token followed by one
/// space, no line breaks.
pub open spec fn literal_text(g: Grid, n: int) -> Seq<char> {
    rows_text(g, n, n)
}

/// The line that opens and closes the display of a board.
pub open spec fn display_border() -> Seq<char> {
    seq![' ', ' '] + Seq::new(21, |i: int| '-')
}

/// One line of the display: the row's index, a bar, the cells and a bar.
pub open spec fn display_row(g: Grid, n: int, r: int) -> Seq<char> {
    decimal(r as nat) + seq![' ', '|', ' '] + row_text(g, r, n) + seq!['|', '\n']
}

/// The lines of the first `r` rows of the display.
pub open spec fn display_rows(g: Grid, n: int, r: int) -> Seq<char>
    decreases r,
{
    if r <= 0 {
        Seq::empty()
    } else {
        display_rows(g, n, r - 1) + display_row(g, n, r - 1)
    }
}

/// The display of a grid: a border, one line for each row, a border.
pub open spec fn display_text(g: Grid, n: int) -> Seq<char> {
    display_border().push('\n') + display_rows(g, n, n) + display_border()
}

/// The text of one decimal digit.
pub fn digit_str(d: u8) -> (s: &'static str)
    requires
        d < 10,
    ensures
        s@ == seq![digit_char(d as int)],
{
    proof {
        reveal_strlit("0");
        reveal_strlit("1");
        reveal_strlit("2");
        reveal_strlit("3");
        reveal_strlit("4");
        reveal_strlit("5");
        reveal_strlit("6");
        reveal_strlit("7");
        reveal_strlit("8");
        reveal_strlit("9");
    }
    let s = if d == 0 {
        "0"
    } else if d == 1 {
        "1"
    } else if d == 2 {
        "2"
    } else if d == 3 {
        "3"
    } else if d == 4 {
        "4"
    } else if d == 5 {
        "5"
    } else if d == 6 {
        "6"
    } else if d == 7 {
        "7"
    } else if d == 8 {
        "8"
    } else {
        "9"
    };
    s
}

/// Appends the decimal notation of `v`.
pub fn push_decimal(text: &mut String, v: u8)
    ensures
        final(text)@ == old(text)@ + decimal(v as nat),
{
    proof {
        reveal_with_fuel(decimal, 3);
    }
    if v >= 100 {
        text.append(digit_str(v / 100));
    }
    if v >= 10 {
        text.append(digit_str((v / 10) % 10));
    }
    text.append(digit_str(v % 10));
}

/// Appends the decimal notation of a number of any size.
pub fn push_number(text: &mut String, v: u128)
    ensures
        final(text)@ == old(text)@ + decimal(v as nat),
    decreases v,
{
    if v >= 10 {
        push_number(text, v / 10);
    }
    text.append(digit_str((v % 10) as u8));
}

/// Appends the token of a cell and the space that follows it.
pub fn push_cell(text: &mut String, cell: Option<u8>)
    ensures
        final(text)@ == old(text)@ + cell_text(cell).push(' '),
{
    match cell {
        Some(v) => {
            push_decimal(text, v);
        },
        None => {
            proof {
                reveal_strlit("_");
            }
            text.append("_");
        },
    }
    proof {
        reveal_strlit(" ");
    }
    text.append(" ");
}

// ---------------------------------------------------------------------------
// Reading a literal
// ---------------------------------------------------------------------------
/// The characters that separate tokens: space, tab, line feed, form feed and
/// carriage return.
pub open spec fn is_separator(c: char) -> bool {
    c == ' ' || c == '\t' || c == '\n' || c == '\x0C' || c == '\r'
}

/// The first position from `i` on that holds no separator, or the end of the text.
pub open spec fn token_start(text: Seq<char>, i: int) -> int
    decreases text.len() - i,
{
    if 0 <= i < text.len() && is_separator(text[i]) {
        token_start(text, i + 1)
    } else {
        i
    }
}

/// The first position from `i` on that holds a separator, or the end of the text.
pub open spec fn token_end(text: Seq<char>, i: int) -> int
    decreases text.len() - i,
{
    if 0 <= i < text.len() && !is_separator(text[i]) {
        token_end(text, i + 1)
    } else {
        i
    }
}

/// `token_start` stays within the text, skips separators only and stops at
/// a character that is none.
pub proof fn lemma_token_start(text: Seq<char>, i: int)
    requires
        0 <= i <= text.len(),
    ensures
        i <= token_start(text, i) <= text.len(),
        token_start(text, i) < text.len() ==> !is_separator(text[token_start(text, i)]),
        forall|j: int| i <= j < token_start(text, i) ==> is_separator(#[trigger] text[j]),
    decreases text.len() - i,
{
    if i < text.len() && is_separator(text[i]) {
        lemma_token_start(text, i + 1);
    }
}

/// `token_end` stays within the text, skips no separator and stops at one;
/// it moves on from a character that is none.
pub proof fn lemma_token_end(text: Seq<char>, i: int)
    requires
        0 <= i <= text.len(),
    ensures
        i <= token_end(text, i) <= text.len(),
        token_end(text, i) < text.len() ==> is_separator(text[token_end(text, i)]),
        forall|j: int| i <= j < token_end(text, i) ==> !is_separator(#[trigger] text[j]),
        i < text.len() && !is_separator(text[i]) ==> i < token_end(text, i),
    decreases text.len() - i,
{
    if i < text.len() && !is_separator(text[i]) {
        lemma_token_end(text, i + 1);
    }
}

/// The tokens of the text from position `i` on: the maximal runs of
/// characters that are no separators, in order.
pub open spec fn tokens_from(text: Seq<char>, i: int) -> Seq<Seq<char>>
    decreases text.len() - i,
{
    let s = token_start(text, i);
    if 0 <= i <= text.len() && s < text.len() {
        proof {
            lemma_token_start(text, i);
            lemma_token_end(text, s);
        }
        seq![text.subrange(s, token_end(text, s))] + tokens_from(text, token_end(text, s))
    } else {
        Seq::empty()
    }
}

/// The tokens of a text.
pub open spec fn tokens(text: Seq<char>) -> Seq<Seq<char>> {
    tokens_from(text, 0)
}

/// Whether a character is a decimal digit.
pub open spec fn is_digit(c: char) -> bool {
    '0' <= c <= '9'
}

/// The number that a string of decimal digits denotes.
pub open spec fn value_of(token: Seq<char>) -> nat
    decreases token.len(),
{
    if token.len() == 0 {
        0
    } else {
        (10 * value_of(token.drop_last()) + (token.last() as int - '0' as int)) as nat
    }
}

/// Every character of the token is a decimal digit, and there is one at least.
pub open spec fn is_number(token: Seq<char>) -> bool {
    token.len() > 0 && forall|i: int| 0 <= i < token.len() ==> is_digit(#[trigger] token[i])
}

/// What a token puts in a cell: the digit it denotes, if it is a string of
/// decimal digits with a value from 1 to `n`; nothing in any other case.
pub open spec fn token_cell(token: Seq<char>, n: int) -> Option<u8> {
    if is_number(token) && 1 <= value_of(token) <= n && n <= 255 {
        Some(value_of(token) as u8)
    } else {
        None
    }
}

/// What the `k`-th token of the text puts in its cell; nothing where the
/// text has no such token.
pub open spec fn parsed_cell(text: Seq<char>, k: int, n: int) -> Option<u8> {
    if 0 <= k < tokens(text).len() {
        token_cell(tokens(text)[k], n)
    } else {
        None
    }
}

/// The grid of side `n` that a text denotes: the tokens fill the cells row
/// by row, and tokens beyond the last cell are ignored.
pub open spec fn parsed_grid(text: Seq<char>, n: int) -> Grid {
    Seq::new(n as nat, |r: int| Seq::new(n as nat, |c: int| parsed_cell(text, r * n + c, n)))
}

/// The characters of a text.
pub fn chars_of(text: &str) -> (r: Vec<char>)
    ensures
        r@ == text@,
{
    let mut result: Vec<char> = Vec::new();
    for c in it: text.chars()
        invariant
            result@ == text@.take(it.index() as int),
            it.seq() == text@,
    {
        result.push(c);
    }
    result
}

/// Whether a character separates tokens.
pub fn is_separator_char(c: char) -> (r: bool)
    ensures
        r == is_separator(c),
{
    c == ' ' || c == '\t' || c == '\n' || c == '\x0C' || c == '\r'
}

/// The next token at or after position `start`: where it ends and what it
/// puts in a cell of a grid of side `size`. `None` when only separators are left.
pub fn next_token(chars: &Vec<char>, start: usize, size: usize) -> (r: Option<(usize, Option<u8>)>)
    requires
        start <= chars.len(),
        size <= 16,
    ensures
        match r {
            Some((end, cell)) => {
                &&& start < end <= chars.len()
                &&& tokens_from(chars@, start as int).len() > 0
                &&& cell == token_cell(tokens_from(chars@, start as int)[0], size as int)
                &&& tokens_from(chars@, start as int).drop_first() == tokens_from(
                    chars@,
                    end as int,
                )
            },
            None => tokens_from(chars@, start as int).len() == 0,
        },
{
    let ghost text = chars@;
    let mut i: usize = start;
    while i < chars.len() && is_separator_char(chars[i])
        invariant
            start <= i <= chars.len(),
            text == chars@,
            token_start(text, start as int) == token_start(text, i as int),
        decreases chars.len() - i,
    {
        i = i + 1;
    }
    if i >= chars.len() {
        return None;
    }
    let begin = i;
    let mut number = true;
    let mut value: usize = 0;
    while i < chars.len() && !is_separator_char(chars[i])
        invariant
            begin <= i <= chars.len(),
            size <= 16,
            text == chars@,
            token_end(text, begin as int) == token_end(text, i as int),
            number == (forall|j: int| begin <= j < i ==> is_digit(#[trigger] text[j])),
            number ==> (if value_of(text.subrange(begin as int, i as int)) <= size {
                value == value_of(text.subrange(begin as int, i as int))
            } else {
                size < value <= 10 * size + 9
            }),
        decreases chars.len() - i,
    {
        let c = chars[i];
        let ghost token = text.subrange(begin as int, i as int);
        let ghost longer = text.subrange(begin as int, i as int + 1);
        proof {
            assert(longer.drop_last() =~= token);
        }
        if c >= '0' && c <= '9' {
            if number && value <= size {
                value = value * 10 + (c as u32 - '0' as u32) as usize;
            }
        } else {
            number = false;
        }
        i = i + 1;
    }
    let ghost token = text.subrange(begin as int, i as int);
    proof {
        assert(is_number(token) == number) by {
            if !(number) {
                let j = choose|j: int| begin <= j < i && !is_digit(#[trigger] text[j]);
                assert(token[j - begin] == text[j]);
            }
        }
    }
    let cell = if number && 1 <= value && value <= size {
        Some(value as u8)
    } else {
        None
    };
    Some((i, cell))
}

// ---------------------------------------------------------------------------
// Reading what was written
// ---------------------------------------------------------------------------
/// The decimal notation of a number is a string of digits that denotes it.
pub proof fn lemma_decimal_value(v: nat)
    ensures
        is_number(decimal(v)),
        value_of(decimal(v)) == v,
        forall|i: int| 0 <= i < decimal(v).len() ==> !is_separator(#[trigger] decimal(v)[i]),
    decreases v,
{
    if v < 10 {
        let text = decimal(v);
        assert(value_of(text.drop_last()) == 0);
    } else {
        lemma_decimal_value(v / 10);
        let text = decimal(v);
        assert(text.drop_last() =~= decimal(v / 10));
    }
}

/// The token of a cell holds no separator, and as a token puts in a cell
/// what the cell holds.
pub proof fn lemma_cell_text(cell: Option<u8>, n: int)
    requires
        n <= 255,
        cell matches Some(v) ==> 1 <= v <= n,
    ensures
        cell_text(cell).len() > 0,
        forall|i: int| 0 <= i < cell_text(cell).len() ==> !is_separator(#[trigger] cell_text(cell)[i]),
        token_cell(cell_text(cell), n) == cell,
{
    match cell {
        Some(v) => {
            lemma_decimal_value(v as nat);
        },
        None => {
            let text = cell_text(cell);
        },
    }
}

/// In a longer text, a run of separators that ends within the shorter text
/// ends at the same position.
proof fn lemma_token_start_longer(text: Seq<char>, longer: Seq<char>, i: int)
    requires
        0 <= i <= text.len(),
        text.is_prefix_of(longer),
    ensures
        token_start(text, i) < text.len() ==> token_start(longer, i) == token_start(text, i),
        token_start(text, i) >= text.len() ==> token_start(longer, i) == token_start(
            longer,
            text.len() as int,
        ),
    decreases text.len() - i,
{
    if i < text.len() {
        if is_separator(text[i]) {
            lemma_token_start_longer(text, longer, i + 1);
        }
    }
}

/// In a longer text, a token that ends within the shorter text ends at the
/// same position.
proof fn lemma_token_end_longer(text: Seq<char>, longer: Seq<char>, i: int)
    requires
        0 <= i <= text.len(),
        text.is_prefix_of(longer),
        token_end(text, i) < text.len(),
    ensures
        token_end(longer, i) == token_end(text, i),
    decreases text.len() - i,
{
    if i < text.len() {
        if !is_separator(text[i]) {
            lemma_token_end_longer(text, longer, i + 1);
        }
    }
}

/// A token that holds no separator ends where it ends.
proof fn lemma_token_end_of(text: Seq<char>, start: int, end: int)
    requires
        0 <= start <= end <= text.len(),
        forall|j: int| start <= j < end ==> !is_separator(#[trigger] text[j]),
        end < text.len() ==> is_separator(text[end]),
    ensures
        token_end(text, start) == end,
    decreases end - start,
{
    if start < end {
        lemma_token_end_of(text, start + 1, end);
    }
}

/// A text that ends with a separator, with a token and a space after it,
/// has the tokens of the text and then that token.
pub proof fn lemma_tokens_append(text: Seq<char>, token: Seq<char>, i: int)
    requires
        0 <= i <= text.len(),
        text.len() > 0 ==> is_separator(text.last()),
        token.len() > 0,
        forall|j: int| 0 <= j < token.len() ==> !is_separator(#[trigger] token[j]),
    ensures
        tokens_from(text + token.push(' '), i) == tokens_from(text, i).push(token),
    decreases text.len() - i,
{
    let longer = text + token.push(' ');
    let s = token_start(text, i);
    lemma_token_start(text, i);
    lemma_token_start_longer(text, longer, i);
    if s < text.len() {
        let e = token_end(text, s);
        lemma_token_end(text, s);
        lemma_token_end_longer(text, longer, s);
        lemma_tokens_append(text, token, e);
        assert(longer.subrange(s, e) =~= text.subrange(s, e));
    } else {
        let start = text.len() as int;
        let end = start + token.len();
        lemma_token_end_of(longer, start, end);
        assert(longer.subrange(start, end) =~= token);
        assert(token_start(longer, end + 1) == end + 1);
        assert(tokens_from(longer, end) =~= Seq::<Seq<char>>::empty());
    }
}

/// The text of the cells before `(r, c)`.
pub open spec fn text_before(g: Grid, n: int, r: int, c: int) -> Seq<char> {
    rows_text(g, n, r) + row_text(g, r, c)
}

/// The text of the cells before `(r, c)` has one token for each of them, in
/// order, and ends with a separator if it is not empty.
proof fn lemma_tokens_before(g: Grid, n: int, r: int, c: int)
    requires
        1 <= n <= 255,
        shaped(g, n),
        in_range(g, n),
        0 <= r <= n,
        0 <= c <= n,
        r == n ==> c == 0,
    ensures
        tokens(text_before(g, n, r, c)).len() == r * n + c,
        forall|r2: int, c2: int|
            0 <= r2 < n && 0 <= c2 < n && before(r2, c2, r, c) ==> tokens(
                text_before(g, n, r, c),
            )[r2 * n + c2] == cell_text(#[trigger] g[r2][c2]),
        text_before(g, n, r, c).len() > 0 ==> is_separator(text_before(g, n, r, c).last()),
    decreases r, c,
{
    let text = text_before(g, n, r, c);
    if c > 0 {
        lemma_tokens_before(g, n, r, c - 1);
        let shorter = text_before(g, n, r, c - 1);
        let token = cell_text(g[r][c - 1]);
        lemma_cell_text(g[r][c - 1], n);
        assert(text =~= shorter + token.push(' '));
        lemma_tokens_append(shorter, token, 0);
        assert forall|r2: int, c2: int|
            0 <= r2 < n && 0 <= c2 < n && before(r2, c2, r, c) implies tokens(text)[r2 * n + c2]
            == cell_text(#[trigger] g[r2][c2]) by {
            if !(r2 == r && c2 == c - 1) {
                lemma_cell_order(n, r2, c2, r, c - 1);
            }
        }
    } else if r > 0 {
        lemma_tokens_before(g, n, r - 1, n);
        assert(r * n == (r - 1) * n + n) by (nonlinear_arith);
    } else {
        assert(r * n + c == 0) by (nonlinear_arith)
            requires
                r == 0,
                c == 0,
        ;
    }
}

/// Reading the literal of a grid gives the grid.
pub proof fn lemma_text_round_trip(g: Grid, n: int)
    requires
        1 <= n <= 255,
        shaped(g, n),
        in_range(g, n),
    ensures
        parsed_grid(literal_text(g, n), n) == g,
{
    let text = literal_text(g, n);
    lemma_tokens_before(g, n, n, 0);
    let p = parsed_grid(text, n);
    assert forall|r: int| 0 <= r < n implies p[r] == g[r] by {
        assert forall|c: int| 0 <= c < n implies p[r][c] == g[r][c] by {
            lemma_cell_order(n, r, c, n, 0);
            lemma_cell_text(g[r][c], n);
        }
    }
}

} // verus!
