//! Reading a graph from text.
//!
//! The text is one stream of numbers separated by commas: the number of
//! nodes; then for each node its two coordinates; then the adjacency matrix,
//! row by row. Nothing else may stand in it, not even blanks or a newline.

use vstd::prelude::*;
use crate::error::SearchError;
use crate::graph::{rows_view, Graph, GraphView};

verus! {

/// Whether `b` is a decimal digit.
pub open spec fn is_digit(b: u8) -> bool {
    48 <= b <= 57
}

/// What the digit `b` stands for.
pub open spec fn digit_value(b: u8) -> nat {
    if is_digit(b) {
        (b - 48) as nat
    } else {
        0
    }
}

/// The number that the digits `t` write in base ten.
pub open spec fn digits_value(t: Seq<u8>) -> nat
    decreases t.len(),
{
    if t.len() == 0 {
        0
    } else {
        digits_value(t.drop_last()) * 10 + digit_value(t.last())
    }
}

/// `t` is one digit or more, and nothing else.
pub open spec fn is_number(t: Seq<u8>) -> bool {
    t.len() > 0 && forall|i: int| 0 <= i < t.len() ==> is_digit(#[trigger] t[i])
}

/// The number that `t` writes, if `t` is digits only and the number is at
/// most `limit`.
pub open spec fn digits_within(t: Seq<u8>, limit: nat) -> Option<nat> {
    if is_number(t) && digits_value(t) <= limit {
        Some(digits_value(t))
    } else {
        None
    }
}

/// The number that `t` writes without a sign or with a plus sign.
pub open spec fn parse_unsigned(t: Seq<u8>, limit: nat) -> Option<nat> {
    if t.len() > 0 && t[0] == 43 {
        digits_within(t.skip(1), limit)
    } else {
        digits_within(t, limit)
    }
}

/// The node count that `t` writes.
pub open spec fn parse_usize(t: Seq<u8>) -> Option<usize> {
    match parse_unsigned(t, usize::MAX as nat) {
        Some(v) => Some(v as usize),
        None => None,
    }
}

/// The matrix entry that `t` writes.
pub open spec fn parse_u8(t: Seq<u8>) -> Option<u8> {
    match parse_unsigned(t, u8::MAX as nat) {
        Some(v) => Some(v as u8),
        None => None,
    }
}

/// The coordinate that `t` writes: digits after an optional sign.
pub open spec fn parse_i32(t: Seq<u8>) -> Option<i32> {
    if t.len() > 0 && t[0] == 45 {
        match digits_within(t.skip(1), 2147483648) {
            Some(v) => Some((-v) as i32),
            None => None,
        }
    } else {
        match parse_unsigned(t, 2147483647) {
            Some(v) => Some(v as i32),
            None => None,
        }
    }
}

/// Where the token that begins at `from` ends: at the next comma, or at
/// the end of the text.
pub open spec fn token_end(s: Seq<u8>, from: int) -> int
    decreases s.len() - from,
{
    if from >= s.len() {
        s.len() as int
    } else if s[from] == 44 {
        from
    } else {
        token_end(s, from + 1)
    }
}

/// The tokens of `s` from position `from` on: the pieces between commas.
pub open spec fn tokens_from(s: Seq<u8>, from: int) -> Seq<Seq<u8>>
    decreases s.len() - from,
{
    if from < 0 || from > s.len() {
        Seq::empty()
    } else if from <= token_end(s, from) < s.len() {
        seq![s.subrange(from, token_end(s, from))] + tokens_from(s, token_end(s, from) + 1)
    } else {
        seq![s.subrange(from, s.len() as int)]
    }
}

/// The tokens of `s`. There is always at least one; between two commas, and
/// before the first and after the last, a token may be empty.
pub open spec fn tokens(s: Seq<u8>) -> Seq<Seq<u8>> {
    tokens_from(s, 0)
}

/// The coordinates of node `i` among the tokens `ts`.
pub open spec fn coordinate_at(ts: Seq<Seq<u8>>, i: int) -> Option<(i32, i32)> {
    match (parse_i32(ts[1 + 2 * i]), parse_i32(ts[2 + 2 * i])) {
        (Some(x), Some(y)) => Some((x, y)),
        _ => None,
    }
}

/// The matrix entry in row `row` and column `col` among the tokens `ts` of
/// a graph of `n` nodes.
pub open spec fn entry_at(ts: Seq<Seq<u8>>, n: int, row: int, col: int) -> Option<u8> {
    parse_u8(ts[1 + 2 * n + row * n + col])
}

/// Every token of a graph of `n` nodes is there and writes a number of its
/// kind, and no token is left over.
pub open spec fn tokens_fit(ts: Seq<Seq<u8>>, n: int) -> bool {
    &&& n >= 1
    &&& ts.len() == 1 + 2 * n + n * n
    &&& forall|i: int| 0 <= i < n ==> #[trigger] coordinate_at(ts, i) is Some
    &&& forall|row: int, col: int|
        0 <= row < n && 0 <= col < n ==> #[trigger] entry_at(ts, n, row, col) is Some
}

/// The graph that the tokens `ts` describe.
pub open spec fn graph_of(ts: Seq<Seq<u8>>, n: int) -> GraphView {
    GraphView {
        coords: Seq::new(n as nat, |i: int| coordinate_at(ts, i)->0),
        matrix: Seq::new(
            n as nat,
            |row: int| Seq::new(n as nat, |col: int| entry_at(ts, n, row, col)->0),
        ),
    }
}

/// The graph that the text `s` describes, if it describes one.
pub open spec fn parse_graph(s: Seq<u8>) -> Option<GraphView> {
    match parse_usize(tokens(s)[0]) {
        Some(amount) => if tokens_fit(tokens(s), amount as int) {
            Some(graph_of(tokens(s), amount as int))
        } else {
            None
        },
        None => None,
    }
}

/// A token ends at or after its beginning, within the text, where no more
/// bytes are or a comma stands; no comma stands before.
pub proof fn lemma_token_end(s: Seq<u8>, from: int)
    requires
        0 <= from <= s.len(),
    ensures
        from <= token_end(s, from) <= s.len(),
        token_end(s, from) < s.len() ==> s[token_end(s, from)] == 44,
        forall|i: int| from <= i < token_end(s, from) ==> s[i] != 44,
    decreases s.len() - from,
{
    if from < s.len() && s[from] != 44 {
        lemma_token_end(s, from + 1);
    }
}

/// A text that holds fewer tokens after its node count than twice that
/// count describes no graph.
pub proof fn lemma_too_few_tokens(s: Seq<u8>)
    requires
        parse_usize(tokens(s)[0]) is Some,
        tokens(s).len() - 1 < 2 * parse_usize(tokens(s)[0])->0,
    ensures
        parse_graph(s) is None,
{
    let n: int = parse_usize(tokens(s)[0])->0 as int;
    assert(n * n >= 0) by (nonlinear_arith);
}

/// The digits read so far never write more than all the digits do.
proof fn lemma_digits_prefix(t: Seq<u8>, k: int)
    requires
        0 <= k <= t.len(),
    ensures
        digits_value(t.take(k)) <= digits_value(t),
    decreases t.len() - k,
{
    if k < t.len() {
        lemma_digits_prefix(t.drop_last(), k);
        assert(t.drop_last().take(k) =~= t.take(k));
    } else {
        assert(t.take(k) =~= t);
    }
}

/// Reads the bytes from `from` up to `to` as digits. Returns the number
/// they write, or nothing if a byte is no digit, there is no byte at all,
/// or the number is above `limit`.
fn read_digits(input: &[u8], from: usize, to: usize, limit: u128) -> (r: Option<u128>)
    requires
        from <= to <= input@.len(),
        limit <= u64::MAX,
    ensures
        match r {
            Some(v) => digits_within(input@.subrange(from as int, to as int), limit as nat)
                == Some(v as nat),
            None => digits_within(input@.subrange(from as int, to as int), limit as nat) is None,
        },
{
    let ghost t: Seq<u8> = input@.subrange(from as int, to as int);
    if from == to {
        return None;
    }
    let mut acc: u128 = 0;
    let mut i: usize = from;
    assert(t.take(0) =~= Seq::<u8>::empty());
    while i < to
        invariant
            from <= i <= to <= input@.len(),
            limit <= u64::MAX,
            t == input@.subrange(from as int, to as int),
            acc <= limit,
            acc == digits_value(t.take(i - from)),
            forall|j: int| 0 <= j < i - from ==> is_digit(#[trigger] t[j]),
        decreases to - i,
    {
        let b: u8 = input[i];
        if b < 48 || b > 57 {
            assert(!is_digit(t[i - from]));
            return None;
        }
        proof {
            assert(t.take(i - from + 1).drop_last() =~= t.take(i - from));
            assert(t.take(i - from + 1).last() == b);
        }
        acc = acc * 10 + (b - 48) as u128;
        i = i + 1;
        if acc > limit {
            proof {
                lemma_digits_prefix(t, i - from);
            }
            return None;
        }
    }
    assert(t.take(i - from) =~= t);
    Some(acc)
}

/// Reads the bytes from `from` up to `to` as a number without a sign or
/// with a plus sign, at most `limit`.
fn read_unsigned(input: &[u8], from: usize, to: usize, limit: u128) -> (r: Option<u128>)
    requires
        from <= to <= input@.len(),
        limit <= u64::MAX,
    ensures
        match r {
            Some(v) => parse_unsigned(input@.subrange(from as int, to as int), limit as nat)
                == Some(v as nat),
            None => parse_unsigned(input@.subrange(from as int, to as int), limit as nat) is None,
        },
{
    let ghost t: Seq<u8> = input@.subrange(from as int, to as int);
    if from < to && input[from] == 43 {
        assert(t.skip(1) =~= input@.subrange(from + 1, to as int));
        read_digits(input, from + 1, to, limit)
    } else {
        read_digits(input, from, to, limit)
    }
}

/// Reads the bytes from `from` up to `to` as a coordinate.
fn read_i32(input: &[u8], from: usize, to: usize) -> (r: Option<i32>)
    requires
        from <= to <= input@.len(),
    ensures
        r == parse_i32(input@.subrange(from as int, to as int)),
{
    let ghost t: Seq<u8> = input@.subrange(from as int, to as int);
    if from < to && input[from] == 45 {
        assert(t.skip(1) =~= input@.subrange(from + 1, to as int));
        match read_digits(input, from + 1, to, 2147483648) {
            Some(v) => {
                let magnitude: i64 = v as i64;
                Some((0 - magnitude) as i32)
            },
            None => None,
        }
    } else {
        match read_unsigned(input, from, to, 2147483647) {
            Some(v) => Some(v as i32),
            None => None,
        }
    }
}

/// A cursor over the tokens of a text.
struct Tokens<'a> {
    input: &'a [u8],
    next: usize,
    more: bool,
}

impl<'a> Tokens<'a> {
    /// The text that is read.
    closed spec fn text(&self) -> Seq<u8> {
        self.input@
    }

    /// The tokens that have not been read yet.
    closed spec fn remaining(&self) -> Seq<Seq<u8>> {
        if self.more {
            tokens_from(self.input@, self.next as int)
        } else {
            Seq::empty()
        }
    }

    /// The cursor stands within the text.
    closed spec fn wf(&self) -> bool {
        self.next <= self.input@.len()
    }

    /// A cursor before the first token of `input`.
    fn new(input: &'a [u8]) -> (reader: Tokens<'a>)
        ensures
            reader.wf(),
            reader.text() == input@,
            reader.remaining() == tokens(input@),
    {
        Tokens { input, next: 0, more: true }
    }

    /// Steps over the next token and returns where it stands in the text.
    fn next_range(&mut self) -> (r: Option<(usize, usize)>)
        requires
            old(self).wf(),
        ensures
            final(self).wf(),
            final(self).text() == old(self).text(),
            match r {
                Some((from, to)) => {
                    &&& from <= to <= old(self).text().len()
                    &&& old(self).remaining().len() > 0
                    &&& old(self).remaining()[0] == old(self).text().subrange(
                        from as int,
                        to as int,
                    )
                    &&& final(self).remaining() == old(self).remaining().drop_first()
                },
                None => old(self).remaining().len() == 0 && final(self).remaining()
                    == old(self).remaining(),
            },
    {
        if !self.more {
            return None;
        }
        let from: usize = self.next;
        let mut to: usize = from;
        while to < self.input.len() && self.input[to] != 44
            invariant
                from <= to <= self.input@.len(),
                token_end(self.input@, from as int) == token_end(self.input@, to as int),
                self.next == old(self).next,
                self.more == old(self).more,
                self.input == old(self).input,
            decreases self.input@.len() - to,
        {
            to = to + 1;
        }
        proof {
            lemma_token_end(self.input@, from as int);
        }
        let ghost before: Seq<Seq<u8>> = self.remaining();
        if to < self.input.len() {
            self.next = to + 1;
            assert(self.remaining() =~= before.drop_first());
        } else {
            self.more = false;
            assert(self.remaining() =~= before.drop_first());
        }
        Some((from, to))
    }

    /// Reads the next token as a node count.
    fn next_usize(&mut self) -> (r: Option<usize>)
        requires
            old(self).wf(),
        ensures
            final(self).wf(),
            final(self).text() == old(self).text(),
            match r {
                Some(v) => {
                    &&& old(self).remaining().len() > 0
                    &&& parse_usize(old(self).remaining()[0]) == Some(v)
                    &&& final(self).remaining() == old(self).remaining().drop_first()
                },
                None => old(self).remaining().len() == 0 || parse_usize(old(self).remaining()[0])
                    is None,
            },
    {
        match self.next_range() {
            Some((from, to)) => match read_unsigned(self.input, from, to, usize::MAX as u128) {
                Some(v) => Some(v as usize),
                None => None,
            },
            None => None,
        }
    }

    /// Reads the next token as a matrix entry.
    fn next_u8(&mut self) -> (r: Option<u8>)
        requires
            old(self).wf(),
        ensures
            final(self).wf(),
            final(self).text() == old(self).text(),
            match r {
                Some(v) => {
                    &&& old(self).remaining().len() > 0
                    &&& parse_u8(old(self).remaining()[0]) == Some(v)
                    &&& final(self).remaining() == old(self).remaining().drop_first()
                },
                None => old(self).remaining().len() == 0 || parse_u8(old(self).remaining()[0])
                    is None,
            },
    {
        match self.next_range() {
            Some((from, to)) => match read_unsigned(self.input, from, to, 255) {
                Some(v) => Some(v as u8),
                None => None,
            },
            None => None,
        }
    }

    /// Reads the next token as a coordinate.
    fn next_i32(&mut self) -> (r: Option<i32>)
        requires
            old(self).wf(),
        ensures
            final(self).wf(),
            final(self).text() == old(self).text(),
            match r {
                Some(v) => {
                    &&& old(self).remaining().len() > 0
                    &&& parse_i32(old(self).remaining()[0]) == Some(v)
                    &&& final(self).remaining() == old(self).remaining().drop_first()
                },
                None => old(self).remaining().len() == 0 || parse_i32(old(self).remaining()[0])
                    is None,
            },
    {
        match self.next_range() {
            Some((from, to)) => read_i32(self.input, from, to),
            None => None,
        }
    }

    /// Whether every token has been read.
    fn at_end(&self) -> (b: bool)
        requires
            self.wf(),
        ensures
            b == (self.remaining().len() == 0),
    {
        proof {
            lemma_token_end(self.input@, self.next as int);
        }
        !self.more
    }
}

/// In a graph of `n` nodes the matrix entry in row `row` and column `col`
/// is not the last token but one of those before the end.
proof fn lemma_entry_index(n: int, row: int, col: int)
    requires
        0 <= row < n,
        0 <= col < n,
    ensures
        row * n + col < n * n,
        row * n + n == (row + 1) * n,
        row * n >= 0,
{
    assert(row * n + n == (row + 1) * n) by (nonlinear_arith);
    assert((row + 1) * n <= n * n) by (nonlinear_arith)
        requires
            0 <= row + 1 <= n,
    ;
    assert(row * n >= 0) by (nonlinear_arith)
        requires
            0 <= row,
            0 <= n,
    ;
}

/// Reads a graph from `input`: the number of nodes, the coordinates of each
/// node, and the adjacency matrix row by row, all separated by commas.
/// Fails if a number is missing, is left over or does not parse, or if
/// there is no node.
pub fn load_graph(input: &[u8]) -> (r: Result<Graph, SearchError>)
    ensures
        match r {
            Ok(graph) => parse_graph(input@) == Some(graph@),
            Err(e) => e == SearchError::MalformedInput && parse_graph(input@) is None,
        },
{
    let ghost ts: Seq<Seq<u8>> = tokens(input@);
    let mut reader = Tokens::new(input);
    let amount: usize = match reader.next_usize() {
        Some(v) => v,
        None => {
            proof {
                lemma_token_end(input@, 0);
            }
            return Err(SearchError::MalformedInput);
        },
    };
    if amount == 0 {
        return Err(SearchError::MalformedInput);
    }
    let ghost n: int = amount as int;
    let ghost mut k: int = 1;
    assert(reader.remaining() =~= ts.skip(1));
    let mut nodes: Vec<(i32, i32)> = Vec::new();
    let mut i: usize = 0;
    while i < amount
        invariant
            i <= amount,
            n == amount,
            n >= 1,
            ts == tokens(input@),
            parse_usize(ts[0]) == Some(amount),
            reader.wf(),
            k == 1 + 2 * i,
            k <= ts.len(),
            reader.remaining() == ts.skip(k),
            nodes@.len() == i,
            forall|j: int| 0 <= j < i ==> coordinate_at(ts, j) == Some(#[trigger] nodes@[j]),
        decreases amount - i,
    {
        let ghost rest: Seq<Seq<u8>> = reader.remaining();
        let x: i32 = match reader.next_i32() {
            Some(v) => v,
            None => {
                proof {
                    assert(rest.len() == ts.len() - k);
                    if rest.len() > 0 {
                        assert(rest[0] == ts[k]);
                        assert(coordinate_at(ts, i as int) is None);
                    } else {
                        assert(n * n >= 0) by (nonlinear_arith);
                    }
                }
                return Err(SearchError::MalformedInput);
            },
        };
        proof {
            assert(rest[0] == ts[k]);
            assert(reader.remaining() =~= ts.skip(k + 1));
        }
        let ghost rest2: Seq<Seq<u8>> = reader.remaining();
        let y: i32 = match reader.next_i32() {
            Some(v) => v,
            None => {
                proof {
                    assert(rest2.len() == ts.len() - k - 1);
                    if rest2.len() > 0 {
                        assert(rest2[0] == ts[k + 1]);
                        assert(coordinate_at(ts, i as int) is None);
                    } else {
                        assert(n * n >= 0) by (nonlinear_arith);
                    }
                }
                return Err(SearchError::MalformedInput);
            },
        };
        proof {
            assert(rest2[0] == ts[k + 1]);
            assert(reader.remaining() =~= ts.skip(k + 2));
            k = k + 2;
        }
        nodes.push((x, y));
        i = i + 1;
    }
    let mut matrix: Vec<Vec<u8>> = Vec::new();
    let mut row: usize = 0;
    while row < amount
        invariant
            row <= amount,
            n == amount,
            n >= 1,
            ts == tokens(input@),
            parse_usize(ts[0]) == Some(amount),
            reader.wf(),
            k == 1 + 2 * n + row * n,
            k <= ts.len(),
            reader.remaining() == ts.skip(k),
            nodes@.len() == n,
            forall|j: int| 0 <= j < n ==> coordinate_at(ts, j) == Some(#[trigger] nodes@[j]),
            matrix@.len() == row,
            forall|a: int| 0 <= a < row ==> (#[trigger] matrix@[a])@.len() == n,
            forall|a: int, b: int|
                0 <= a < row && 0 <= b < n ==> entry_at(ts, n, a, b) == Some(
                    #[trigger] matrix@[a]@[b],
                ),
        decreases amount - row,
    {
        let mut entries: Vec<u8> = Vec::new();
        let mut col: usize = 0;
        while col < amount
            invariant
                col <= amount,
                row < amount,
                n == amount,
                n >= 1,
                ts == tokens(input@),
                parse_usize(ts[0]) == Some(amount),
                reader.wf(),
                k == 1 + 2 * n + row * n + col,
                k <= ts.len(),
                reader.remaining() == ts.skip(k),
                entries@.len() == col,
                forall|b: int|
                    0 <= b < col ==> entry_at(ts, n, row as int, b) == Some(#[trigger] entries@[b]),
            decreases amount - col,
        {
            let ghost rest: Seq<Seq<u8>> = reader.remaining();
            let entry: u8 = match reader.next_u8() {
                Some(v) => v,
                None => {
                    proof {
                        lemma_entry_index(n, row as int, col as int);
                        assert(rest.len() == ts.len() - k);
                        if rest.len() > 0 {
                            assert(rest[0] == ts[k]);
                            assert(entry_at(ts, n, row as int, col as int) is None);
                        }
                    }
                    return Err(SearchError::MalformedInput);
                },
            };
            proof {
                assert(rest[0] == ts[k]);
                assert(reader.remaining() =~= ts.skip(k + 1));
                k = k + 1;
            }
            entries.push(entry);
            col = col + 1;
        }
        proof {
            lemma_entry_index(n, row as int, 0);
        }
        matrix.push(entries);
        row = row + 1;
    }
    if !reader.at_end() {
        return Err(SearchError::MalformedInput);
    }
    proof {
        assert(ts.skip(k).len() == 0);
        assert(k == 1 + 2 * n + n * n);
        assert forall|j: int| 0 <= j < n implies #[trigger] coordinate_at(ts, j) is Some by {
            assert(coordinate_at(ts, j) == Some(nodes@[j]));
        }
        assert forall|a: int, b: int| 0 <= a < n && 0 <= b < n implies #[trigger] entry_at(
            ts,
            n,
            a,
            b,
        ) is Some by {
            assert(entry_at(ts, n, a, b) == Some(matrix@[a]@[b]));
        }
        assert(tokens_fit(ts, n));
        assert(nodes@ =~= graph_of(ts, n).coords);
        assert(rows_view(matrix@) =~= graph_of(ts, n).matrix) by {
            assert forall|a: int| 0 <= a < n implies #[trigger] rows_view(matrix@)[a] =~= graph_of(
                ts,
                n,
            ).matrix[a] by {
                assert forall|b: int| 0 <= b < n implies rows_view(matrix@)[a][b] == graph_of(
                    ts,
                    n,
                ).matrix[a][b] by {
                    assert(entry_at(ts, n, a, b) == Some(matrix@[a]@[b]));
                }
            }
        }
        assert((GraphView { coords: nodes@, matrix: rows_view(matrix@) }).wf());
    }
    Graph::new(nodes, matrix)
}

} // verus!
