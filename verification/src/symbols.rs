//! The adaptive order-0 model: a table of cumulative symbol counts over an
//! alphabet of 257 symbols, the 256 byte values and the end-of-stream marker.
//!
//! The model of a table is the sequence `c` of its 258 cumulative counts:
//! `c[s]` is the number of counted occurrences of symbols below `s`, so symbol
//! `s` owns the half-open range `c[s] .. c[s + 1]` and `c[257]` is the total.

use vstd::prelude::*;

verus! {

/// Size of the alphabet: the byte values and the end-of-stream marker.
pub const MAX_SYMBOLS: usize = 0x101;

/// The end-of-stream marker.
pub const SYMBOL_EOF: usize = 0x100;

/// The largest total a table may reach. Up to this total every symbol's share
/// of a renormalized 32-bit interval holds at least two values.
pub const MAX_TOTAL: u64 = 0x2000_0000;

/// How often symbol `s` has been counted in `table`.
pub open spec fn symbol_weight(table: Seq<int>, s: int) -> int {
    table[s + 1] - table[s]
}

/// The sum of all counts.
pub open spec fn table_total(table: Seq<int>) -> int {
    table[MAX_SYMBOLS as int]
}

/// A cumulative table: it starts at zero and every symbol has a count of at
/// least one.
pub open spec fn table_wf(table: Seq<int>) -> bool {
    &&& table.len() == MAX_SYMBOLS + 1
    &&& table[0] == 0
    &&& forall|s: int| 0 <= s < MAX_SYMBOLS ==> #[trigger] symbol_weight(table, s) >= 1
}

/// The table in which every symbol has been counted once.
pub open spec fn initial_table() -> Seq<int> {
    Seq::new((MAX_SYMBOLS + 1) as nat, |i: int| i)
}

/// `table` after symbol `s` has been counted once more.
pub open spec fn table_increment(table: Seq<int>, s: int) -> Seq<int> {
    Seq::new(
        table.len(),
        |i: int|
            if i > s {
                table[i] + 1
            } else {
                table[i]
            },
    )
}

/// Whether the cumulative value `v` falls into the range of symbol `s`.
pub open spec fn table_holds(table: Seq<int>, s: int, v: int) -> bool {
    0 <= s < MAX_SYMBOLS && table[s] <= v < table[s + 1]
}

/// The symbol into whose range the cumulative value `v` falls.
pub open spec fn table_find(table: Seq<int>, v: int) -> int {
    choose|s: int| table_holds(table, s, v)
}

/// The table after the symbols of `symbols` have been counted, in order,
/// starting from the initial table.
pub open spec fn table_after(symbols: Seq<int>) -> Seq<int>
    decreases symbols.len(),
{
    if symbols.len() == 0 {
        initial_table()
    } else {
        table_increment(table_after(symbols.drop_last()), symbols.last())
    }
}

/// Cumulative counts grow by at least one per symbol.
pub proof fn lemma_table_monotonic(table: Seq<int>, i: int, j: int)
    requires
        table_wf(table),
        0 <= i <= j <= MAX_SYMBOLS,
    ensures
        table[j] - table[i] >= j - i,
    decreases j - i,
{
    if i < j {
        lemma_table_monotonic(table, i, j - 1);
        assert(symbol_weight(table, j - 1) >= 1);
    }
}

/// Every cumulative value below the total falls into the range of exactly one
/// symbol, and `table_find` names it.
pub proof fn lemma_table_find(table: Seq<int>, v: int)
    requires
        table_wf(table),
        0 <= v < table_total(table),
    ensures
        table_holds(table, table_find(table, v), v),
        forall|s: int| table_holds(table, s, v) ==> s == table_find(table, v),
{
    lemma_table_scan(table, v, MAX_SYMBOLS as int - 1);
    let found = table_find(table, v);
    assert forall|s: int| table_holds(table, s, v) implies s == found by {
        if s < found {
            lemma_table_monotonic(table, s + 1, found);
        } else if found < s {
            lemma_table_monotonic(table, found + 1, s);
        }
    }
}

proof fn lemma_table_scan(table: Seq<int>, v: int, top: int)
    requires
        table_wf(table),
        0 <= top < MAX_SYMBOLS,
        0 <= v < table[top + 1],
    ensures
        exists|s: int| table_holds(table, s, v),
    decreases top,
{
    if table[top] <= v {
        assert(table_holds(table, top, v));
    } else {
        lemma_table_scan(table, v, top - 1);
    }
}

/// Counting a symbol keeps the table well formed, adds one to the total and to
/// that symbol's count, and leaves the other counts alone.
pub proof fn lemma_table_increment(table: Seq<int>, s: int)
    requires
        table_wf(table),
        0 <= s < MAX_SYMBOLS,
    ensures
        table_wf(table_increment(table, s)),
        table_total(table_increment(table, s)) == table_total(table) + 1,
        symbol_weight(table_increment(table, s), s) == symbol_weight(table, s) + 1,
        forall|t: int|
            0 <= t < MAX_SYMBOLS && t != s ==> symbol_weight(table_increment(table, s), t)
                == symbol_weight(table, t),
{
    let next = table_increment(table, s);
    assert forall|t: int| 0 <= t < MAX_SYMBOLS implies #[trigger] symbol_weight(next, t) >= 1
        && (t != s ==> symbol_weight(next, t) == symbol_weight(table, t)) by {
        assert(symbol_weight(table, t) >= 1);
    }
}

/// After any sequence of symbols has been counted, the table starts at zero,
/// every symbol's range is non-empty, and the total is 257 plus the number of
/// symbols counted.
pub proof fn lemma_table_after(symbols: Seq<int>)
    requires
        forall|i: int| 0 <= i < symbols.len() ==> 0 <= #[trigger] symbols[i] < MAX_SYMBOLS,
    ensures
        table_wf(table_after(symbols)),
        table_after(symbols)[0] == 0,
        forall|s: int|
            0 <= s < MAX_SYMBOLS ==> table_after(symbols)[s] < #[trigger] table_after(symbols)[s
                + 1],
        table_total(table_after(symbols)) == MAX_SYMBOLS + symbols.len(),
    decreases symbols.len(),
{
    if symbols.len() == 0 {
        assert forall|s: int| 0 <= s < MAX_SYMBOLS implies #[trigger] symbol_weight(
            initial_table(),
            s,
        ) >= 1 by {}
    } else {
        lemma_table_after(symbols.drop_last());
        lemma_table_increment(table_after(symbols.drop_last()), symbols.last());
    }
    let table = table_after(symbols);
    assert forall|s: int| 0 <= s < MAX_SYMBOLS implies table[s] < #[trigger] table[s + 1] by {
        assert(symbol_weight(table, s) >= 1);
    }
}

/// The cumulative counts of the 257 symbols.
#[derive(Debug)]
pub struct SymbolTable {
    symbol_count: u64,
    table: [u64; 258],
}

impl View for SymbolTable {
    type V = Seq<int>;

    /// The 258 cumulative counts.
    closed spec fn view(&self) -> Seq<int> {
        Seq::new((MAX_SYMBOLS + 1) as nat, |i: int| self.table[i] as int)
    }
}

impl SymbolTable {
    /// The counts form a cumulative table whose total is within `MAX_TOTAL`.
    pub closed spec fn wf(&self) -> bool {
        &&& table_wf(self@)
        &&& self.symbol_count == table_total(self@)
        &&& self.symbol_count <= MAX_TOTAL
    }

    /// A well-formed table is a cumulative table within the limit.
    pub proof fn lemma_wf(&self)
        requires
            self.wf(),
        ensures
            table_wf(self@),
            table_total(self@) <= MAX_TOTAL,
    {
    }

    /// The table in which every symbol has been counted once.
    pub fn new() -> (ret: SymbolTable)
        ensures
            ret.wf(),
            ret@ == initial_table(),
    {
        let mut ret = SymbolTable { symbol_count: 0, table: [0; 258] };
        let mut i: usize = 0;
        while i < MAX_SYMBOLS
            invariant
                i <= MAX_SYMBOLS,
                ret.symbol_count == i,
                forall|j: int| 0 <= j <= i ==> ret.table[j] == j,
            decreases MAX_SYMBOLS - i,
        {
            ret.symbol_count += 1;
            ret.table[i + 1] = ret.symbol_count;
            i += 1;
        }
        proof {
            assert(ret@ =~= initial_table());
            assert forall|s: int| 0 <= s < MAX_SYMBOLS implies #[trigger] symbol_weight(ret@, s)
                >= 1 by {}
        }
        ret
    }

    /// The total of all counts.
    pub fn total(&self) -> (total: u64)
        requires
            self.wf(),
        ensures
            total == table_total(self@),
    {
        self.symbol_count
    }

    /// Counts `symbol` once more.
    pub fn increment_symbol(&mut self, symbol: usize)
        requires
            old(self).wf(),
            symbol < MAX_SYMBOLS,
            table_total(old(self)@) < MAX_TOTAL,
        ensures
            final(self).wf(),
            final(self)@ == table_increment(old(self)@, symbol as int),
    {
        let ghost before = *self;
        self.symbol_count += 1;
        let mut i: usize = symbol;
        while i < MAX_SYMBOLS
            invariant
                symbol <= i <= MAX_SYMBOLS,
                before.wf(),
                self.symbol_count == before.symbol_count + 1,
                forall|j: int|
                    0 <= j <= i ==> self.table[j] == table_increment(before@, symbol as int)[j],
                forall|j: int| i < j <= MAX_SYMBOLS ==> self.table[j] == before.table[j],
            decreases MAX_SYMBOLS - i,
        {
            proof {
                lemma_table_monotonic(before@, i + 1, MAX_SYMBOLS as int);
            }
            self.table[i + 1] += 1;
            i += 1;
        }
        proof {
            assert(self@ =~= table_increment(before@, symbol as int));
            lemma_table_increment(before@, symbol as int);
        }
    }

    /// The range of cumulative values that belongs to `symbol`.
    pub fn get_symbol(&self, symbol: usize) -> (range: (u64, u64))
        requires
            self.wf(),
            symbol < MAX_SYMBOLS,
        ensures
            range.0 == self@[symbol as int],
            range.1 == self@[symbol + 1],
    {
        (self.table[symbol], self.table[symbol + 1])
    }

    /// The symbol into whose range `cumulative_value` falls, with that range.
    pub fn find_symbol(&self, cumulative_value: u64) -> (found: (usize, u64, u64))
        requires
            self.wf(),
            cumulative_value < table_total(self@),
        ensures
            found.0 == table_find(self@, cumulative_value as int),
            table_holds(self@, found.0 as int, cumulative_value as int),
            found.1 == self@[found.0 as int],
            found.2 == self@[found.0 + 1],
    {
        let mut symbol: usize = MAX_SYMBOLS - 1;
        while self.table[symbol] > cumulative_value
            invariant
                self.wf(),
                symbol < MAX_SYMBOLS,
                cumulative_value < self.table[symbol + 1],
            decreases symbol,
        {
            symbol -= 1;
        }
        proof {
            assert(table_holds(self@, symbol as int, cumulative_value as int));
            lemma_table_find(self@, cumulative_value as int);
        }
        (symbol, self.table[symbol], self.table[symbol + 1])
    }
}

} // verus!
