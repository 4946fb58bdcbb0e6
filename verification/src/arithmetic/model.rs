//! The adaptive order-0 frequency model that drives both the encoder and the
//! decoder.
//!
//! The model keeps cumulative counts over 257 symbols: the 256 byte values
//! and, last, the end-of-stream marker. Observed bytes are buffered and
//! folded into the counts in batches. Once the counts, together with what is
//! buffered, add up to [`MAX_CHARACTER_COUNT`], the model stops changing.
use vstd::prelude::*;

verus! {

/// How many observed bytes are buffered before they are folded into the
/// cumulative counts.
pub const CHARACTER_BUFFER_SIZE: usize = 256;

/// The largest total count that the model ever reaches.
pub const MAX_CHARACTER_COUNT: usize = 0x4000_0000;

/// The index of the end-of-stream marker in the cumulative counts.
pub open spec fn end_of_stream() -> int {
    256
}

/// A symbol's share of the probability mass: the fraction
/// `[lower / denom, upper / denom)`.
#[derive(Debug, Clone, Copy)]
pub struct PRange {
    pub upper: u32,
    pub lower: u32,
    pub denom: u32,
}

impl PRange {
    /// The range is not empty and lies within `[0, denom)`.
    pub open spec fn wf(self) -> bool {
        self.lower < self.upper <= self.denom
    }
}

/// How many entries of `buffer` are at most `symbol`.
pub open spec fn count_up_to(buffer: Seq<u8>, symbol: int) -> nat
    decreases buffer.len(),
{
    if buffer.len() == 0 {
        0
    } else {
        count_up_to(buffer.drop_last(), symbol) + if buffer.last() <= symbol {
            1nat
        } else {
            0nat
        }
    }
}

/// How many entries of `buffer` equal `symbol`.
pub open spec fn count_of(buffer: Seq<u8>, symbol: int) -> nat
    decreases buffer.len(),
{
    if buffer.len() == 0 {
        0
    } else {
        count_of(buffer.drop_last(), symbol) + if buffer.last() == symbol {
            1nat
        } else {
            0nat
        }
    }
}

/// The smallest index from `from` on whose cumulative count exceeds
/// `value`, or the end-of-stream index if there is none below it.
pub open spec fn scan(table: Seq<int>, value: int, from: int) -> int
    decreases end_of_stream() - from,
{
    if from >= end_of_stream() || value < table[from] {
        from
    } else {
        scan(table, value, from + 1)
    }
}

/// The state of a model as a mathematical value.
pub struct ModelView {
    /// Entry `i` is the cumulative count of the symbols `0..=i`.
    pub table: Seq<int>,
    /// The observed bytes that are not yet part of `table`.
    pub pending: Seq<u8>,
}

impl ModelView {
    /// The uniform prior: every symbol has been counted once.
    pub open spec fn initial() -> ModelView {
        ModelView { table: Seq::new(257, |i: int| i + 1), pending: Seq::empty() }
    }

    /// The sum of all counts.
    pub open spec fn total(self) -> int {
        self.table[end_of_stream()]
    }

    /// The cumulative count below `symbol`.
    pub open spec fn lower(self, symbol: int) -> int {
        if symbol == 0 {
            0
        } else {
            self.table[symbol - 1]
        }
    }

    /// The cumulative count up to and including `symbol`.
    pub open spec fn upper(self, symbol: int) -> int {
        self.table[symbol]
    }

    /// Every symbol has a count of at least one, and counts and buffer
    /// together stay within the ceiling.
    pub open spec fn counts_wf(self) -> bool {
        &&& self.table.len() == 257
        &&& self.table[0] >= 1
        &&& forall|i: int| 0 <= i < 256 ==> self.table[i] < #[trigger] self.table[i + 1]
        &&& self.total() + self.pending.len() <= MAX_CHARACTER_COUNT
    }

    /// The counts are well-formed and at most 255 bytes are buffered.
    pub open spec fn wf(self) -> bool {
        &&& self.counts_wf()
        &&& self.pending.len() < CHARACTER_BUFFER_SIZE
    }

    /// The symbol whose range `[lower, upper)` holds `value`.
    pub open spec fn symbol_for(self, value: int) -> int {
        scan(self.table, value, 0)
    }

    /// The model with the buffered bytes folded into the counts.
    pub open spec fn rebuild(self) -> ModelView {
        ModelView {
            table: Seq::new(257, |i: int| self.table[i] + count_up_to(self.pending, i)),
            pending: Seq::empty(),
        }
    }

    /// The model after one more byte has been observed. Nothing changes once
    /// counts and buffer have reached the ceiling; the buffer is folded in
    /// when it is full or when the ceiling is reached.
    pub open spec fn observe(self, symbol: u8) -> ModelView {
        if self.total() + self.pending.len() < MAX_CHARACTER_COUNT {
            let pushed = ModelView { table: self.table, pending: self.pending.push(symbol) };
            if pushed.pending.len() >= CHARACTER_BUFFER_SIZE || pushed.total()
                + pushed.pending.len() >= MAX_CHARACTER_COUNT {
                pushed.rebuild()
            } else {
                pushed
            }
        } else {
            self
        }
    }

    /// The model after it has observed `symbols`, one after the other.
    pub open spec fn observe_all(self, symbols: Seq<u8>) -> ModelView
        decreases symbols.len(),
    {
        if symbols.len() == 0 {
            self
        } else {
            self.observe_all(symbols.drop_last()).observe(symbols.last())
        }
    }

    /// The model that has observed `history`, starting from the uniform
    /// prior.
    pub open spec fn after(history: Seq<u8>) -> ModelView {
        ModelView::initial().observe_all(history)
    }
}

/// The counts up to a symbol are the counts up to the one before plus the
/// symbol's own.
pub proof fn lemma_count_up_to_step(buffer: Seq<u8>, symbol: int)
    ensures
        count_up_to(buffer, symbol) == count_up_to(buffer, symbol - 1) + count_of(buffer, symbol),
        count_up_to(buffer, symbol) <= buffer.len(),
        symbol >= 255 ==> count_up_to(buffer, symbol) == buffer.len(),
        symbol < 0 ==> count_up_to(buffer, symbol) == 0,
    decreases buffer.len(),
{
    if buffer.len() > 0 {
        lemma_count_up_to_step(buffer.drop_last(), symbol);
    }
}

/// A value below the total lies in the range of the symbol that
/// `symbol_for` finds.
pub proof fn lemma_symbol_for(m: ModelView, value: int)
    requires
        m.wf(),
        0 <= value < m.total(),
    ensures
        0 <= m.symbol_for(value) <= 256,
        m.lower(m.symbol_for(value)) <= value < m.upper(m.symbol_for(value)),
{
    lemma_scan(m, value, 0);
}

/// The symbol whose range holds a value is the one that `symbol_for` finds.
pub proof fn lemma_symbol_unique(m: ModelView, value: int, symbol: int)
    requires
        m.wf(),
        0 <= symbol <= 256,
        m.lower(symbol) <= value < m.upper(symbol),
    ensures
        m.symbol_for(value) == symbol,
{
    lemma_table_monotonic(m, symbol, 256);
    if symbol > 0 {
        lemma_table_monotonic(m, 0, symbol - 1);
    }
    lemma_symbol_for(m, value);
    let found = m.symbol_for(value);
    if symbol < found {
        lemma_table_monotonic(m, symbol, found - 1);
    }
    if found < symbol {
        lemma_table_monotonic(m, found, symbol - 1);
    }
}

/// The cumulative counts do not decrease with the symbol.
pub proof fn lemma_table_monotonic(m: ModelView, i: int, j: int)
    requires
        m.wf(),
        0 <= i <= j <= 256,
    ensures
        1 <= m.table[i] <= m.table[j],
        m.table[j] - m.table[i] >= j - i,
    decreases j,
{
    if i < j {
        lemma_table_monotonic(m, i, j - 1);
        assert(m.table[j - 1] < m.table[j - 1 + 1]);
    } else if i > 0 {
        lemma_table_monotonic(m, 0, i - 1);
        assert(m.table[i - 1] < m.table[i - 1 + 1]);
    }
}

proof fn lemma_scan(m: ModelView, value: int, from: int)
    requires
        m.wf(),
        0 <= from <= 256,
        m.lower(from) <= value < m.total(),
    ensures
        from <= scan(m.table, value, from) <= 256,
        m.lower(scan(m.table, value, from)) <= value < m.upper(scan(m.table, value, from)),
    decreases 256 - from,
{
    if from < 256 && value >= m.table[from] {
        lemma_scan(m, value, from + 1);
    }
}

/// A well-formed model stays well-formed when its buffer is folded in, and
/// its total grows by the number of buffered bytes.
pub proof fn lemma_rebuild_wf(m: ModelView)
    requires
        m.counts_wf(),
    ensures
        m.rebuild().wf(),
        m.rebuild().total() == m.total() + m.pending.len(),
{
    let r = m.rebuild();
    lemma_count_up_to_step(m.pending, 256);
    lemma_count_up_to_step(m.pending, 0);
    assert forall|i: int| 0 <= i < 256 implies r.table[i] < #[trigger] r.table[i + 1] by {
        lemma_count_up_to_step(m.pending, i + 1);
        assert(m.table[i] < m.table[i + 1]);
    }
}

/// Observing a byte keeps a model well-formed.
pub proof fn lemma_observe_wf(m: ModelView, symbol: u8)
    requires
        m.wf(),
    ensures
        m.observe(symbol).wf(),
        m.total() <= m.observe(symbol).total() <= MAX_CHARACTER_COUNT,
{
    if m.total() + m.pending.len() < MAX_CHARACTER_COUNT {
        let pushed = ModelView { table: m.table, pending: m.pending.push(symbol) };
        lemma_rebuild_wf(pushed);
    }
}

/// Observing any number of bytes keeps a model well-formed, and its total
/// count within the ceiling.
pub proof fn lemma_observe_all_wf(m: ModelView, symbols: Seq<u8>)
    requires
        m.wf(),
    ensures
        m.observe_all(symbols).wf(),
        m.total() <= m.observe_all(symbols).total() <= MAX_CHARACTER_COUNT,
    decreases symbols.len(),
{
    if symbols.len() > 0 {
        lemma_observe_all_wf(m, symbols.drop_last());
        lemma_observe_wf(m.observe_all(symbols.drop_last()), symbols.last());
    } else {
        lemma_table_monotonic(m, 0, 256);
    }
}

/// Whatever bytes a model has observed since the uniform prior, its total
/// count never exceeds the ceiling, and it is well-formed.
pub proof fn lemma_after_wf(history: Seq<u8>)
    ensures
        ModelView::after(history).wf(),
        257 <= ModelView::after(history).total() <= MAX_CHARACTER_COUNT,
{
    let m = ModelView::initial();
    assert(m.wf());
    lemma_observe_all_wf(m, history);
}

/// The adaptive frequency model.
pub struct Model {
    symbol_upper_range: [u32; 257],
    character_update_buffer: Vec<u8>,
    total_symbols: u32,
}

impl View for Model {
    type V = ModelView;

    closed spec fn view(&self) -> ModelView {
        ModelView {
            table: Seq::new(257, |i: int| self.symbol_upper_range@[i] as int),
            pending: self.character_update_buffer@,
        }
    }
}

impl Model {
    /// The model is well-formed and `total_symbols` is the sum of its
    /// counts.
    pub closed spec fn wf(&self) -> bool {
        &&& self@.wf()
        &&& self.total_symbols == self@.total()
    }

    /// A well-formed model has a well-formed view.
    pub proof fn lemma_wf(&self)
        requires
            self.wf(),
        ensures
            self@.wf(),
    {
    }

    /// The sum of all counts, the denominator of every probability range.
    pub fn total_symbols(&self) -> (total: u32)
        requires
            self.wf(),
        ensures
            total == self@.total(),
            257 <= total <= MAX_CHARACTER_COUNT,
    {
        proof {
            lemma_table_monotonic(self@, 0, 256);
        }
        self.total_symbols
    }

    /// A model with the uniform prior.
    pub fn new() -> (model: Self)
        ensures
            model.wf(),
            model@ == ModelView::initial(),
    {
        let mut table = [0u32;257];
        let mut i: usize = 0;
        while i < 257
            invariant
                i <= 257,
                forall|j: int| 0 <= j < i ==> table@[j] == j + 1,
            decreases 257 - i,
        {
            table[i] = i as u32 + 1;
            i += 1;
        }
        let model = Self {
            character_update_buffer: Vec::new(),
            symbol_upper_range: table,
            total_symbols: 257,
        };
        assert(model@.table =~= ModelView::initial().table);
        model
    }

    /// The probability range of the byte `symbol`.
    pub fn get_p_range(&self, symbol: u8) -> (range: PRange)
        requires
            self.wf(),
        ensures
            range.lower == self@.lower(symbol as int),
            range.upper == self@.upper(symbol as int),
            range.denom == self@.total(),
            range.wf(),
    {
        let upper = self.symbol_upper_range[symbol as usize];
        let lower = if symbol == 0 {
            0
        } else {
            self.symbol_upper_range[symbol as usize - 1]
        };
        proof {
            let m = self@;
            lemma_table_monotonic(m, symbol as int, 256);
            if symbol > 0 {
                assert(m.table[symbol as int - 1] < m.table[symbol as int - 1 + 1]);
            }
        }
        PRange { upper, lower, denom: self.total_symbols }
    }

    /// The probability range of the end-of-stream marker.
    pub fn get_eof_range(&self) -> (range: PRange)
        requires
            self.wf(),
        ensures
            range.lower == self@.lower(end_of_stream()),
            range.upper == self@.upper(end_of_stream()),
            range.denom == self@.total(),
            range.wf(),
    {
        let upper = self.symbol_upper_range[256];
        let lower = self.symbol_upper_range[255];
        proof {
            assert(self@.table[255] < self@.table[255int + 1]);
        }
        PRange { upper, lower, denom: self.total_symbols }
    }

    /// The byte whose range holds `value`, or `None` if the end-of-stream
    /// marker's range holds it.
    pub fn get_symbol(&self, value: u32) -> (symbol: Option<u8>)
        requires
            self.wf(),
            value < self@.total(),
        ensures
            match symbol {
                Some(s) => s == self@.symbol_for(value as int),
                None => self@.symbol_for(value as int) == end_of_stream(),
            },
            match symbol {
                Some(s) => self@.lower(s as int) <= value < self@.upper(s as int),
                None => self@.lower(end_of_stream()) <= value < self@.upper(end_of_stream()),
            },
    {
        let mut s: usize = 0;
        while value >= self.symbol_upper_range[s]
            invariant
                self.wf(),
                value < self@.total(),
                0 <= s <= 256,
                scan(self@.table, value as int, s as int) == self@.symbol_for(value as int),
            decreases 256 - s,
        {
            s += 1;
        }
        proof {
            lemma_symbol_for(self@, value as int);
        }
        if s == 256 {
            None
        } else {
            Some(s as u8)
        }
    }

    /// Observes one byte: `self@` becomes `old(self)@.observe(symbol)`.
    pub fn save_symbol(&mut self, symbol: u8)
        requires
            old(self).wf(),
        ensures
            final(self).wf(),
            final(self)@ == old(self)@.observe(symbol),
    {
        if (self.total_symbols as usize) + self.character_update_buffer.len()
            < MAX_CHARACTER_COUNT {
            self.character_update_buffer.push(symbol);
            assert(self@.table =~= old(self)@.table);
            if self.character_update_buffer.len() >= CHARACTER_BUFFER_SIZE
                || self.total_symbols as usize + self.character_update_buffer.len()
                >= MAX_CHARACTER_COUNT {
                self.update_model();
            }
        }
    }

    /// Folds the buffered bytes into the cumulative counts and empties the
    /// buffer.
    pub fn update_model(&mut self)
        requires
            old(self)@.counts_wf(),
        ensures
            final(self).wf(),
            final(self)@ == old(self)@.rebuild(),
    {
        let mut new_ranges = [0u32;257];
        let ghost buffer = self.character_update_buffer@;
        let ghost before = self@;
        let n = self.character_update_buffer.len();
        proof {
            lemma_table_monotonic_raw(before.table, 0, 256);
        }
        let mut k: usize = 0;
        while k < n
            invariant
                k <= n,
                n == buffer.len(),
                n <= MAX_CHARACTER_COUNT,
                buffer == self.character_update_buffer@,
                forall|j: int| 0 <= j < 257 ==> new_ranges@[j] == count_of(buffer.take(k as int), j),
                forall|j: int| 0 <= j < 257 ==> new_ranges@[j] <= k,
            decreases n - k,
        {
            let symbol = self.character_update_buffer[k];
            proof {
                assert(buffer.take(k as int + 1).drop_last() =~= buffer.take(k as int));
            }
            new_ranges[symbol as usize] += 1;
            k += 1;
        }
        assert(buffer.take(n as int) =~= buffer);
        self.character_update_buffer.clear();
        let mut i: usize = 1;
        proof {
            lemma_count_up_to_step(buffer, 0);
            lemma_count_up_to_step(buffer, -1);
        }
        while i < 257
            invariant
                1 <= i <= 257,
                n == buffer.len(),
                n <= MAX_CHARACTER_COUNT,
                self.character_update_buffer@.len() == 0,
                forall|j: int| 0 <= j < i ==> new_ranges@[j] == count_up_to(buffer, j),
                forall|j: int| i <= j < 257 ==> new_ranges@[j] == count_of(buffer, j),
            decreases 257 - i,
        {
            proof {
                lemma_count_up_to_step(buffer, i as int);
            }
            new_ranges[i] += new_ranges[i - 1];
            i += 1;
        }
        let mut i: usize = 0;
        while i < 257
            invariant
                i <= 257,
                n == buffer.len(),
                before.table.len() == 257,
                before.total() + n <= MAX_CHARACTER_COUNT,
                self.character_update_buffer@.len() == 0,
                forall|j: int| 0 <= j <= 256 ==> 1 <= #[trigger] before.table[j] <= before.total(),
                forall|j: int| 0 <= j < 257 ==> new_ranges@[j] == count_up_to(buffer, j),
                forall|j: int|
                    0 <= j < i ==> self.symbol_upper_range@[j] == before.table[j] + count_up_to(
                        buffer,
                        j,
                    ),
                forall|j: int| i <= j < 257 ==> self.symbol_upper_range@[j] == before.table[j],
            decreases 257 - i,
        {
            proof {
                lemma_count_up_to_step(buffer, i as int);
                assert(before.table[i as int] <= before.total());
            }
            self.symbol_upper_range[i] += new_ranges[i];
            i += 1;
        }
        self.total_symbols = self.symbol_upper_range[256];
        proof {
            assert(self@.table =~= before.rebuild().table);
            assert(self@.pending =~= before.rebuild().pending);
            lemma_rebuild_wf(before);
        }
    }
}

impl Default for Model {
    fn default() -> (model: Self)
        ensures
            model.wf(),
            model@ == ModelView::initial(),
    {
        Self::new()
    }
}

proof fn lemma_table_monotonic_raw(table: Seq<int>, i: int, j: int)
    requires
        table.len() == 257,
        table[0] >= 1,
        forall|i: int| 0 <= i < 256 ==> table[i] < #[trigger] table[i + 1],
        0 <= i <= j <= 256,
    ensures
        forall|k: int| i <= k <= j ==> 1 <= #[trigger] table[k] <= table[j],
    decreases j,
{
    if 0 < j {
        lemma_table_monotonic_raw(table, 0, j - 1);
        assert(table[j - 1] < table[j - 1 + 1]);
    }
}

} // verus!
