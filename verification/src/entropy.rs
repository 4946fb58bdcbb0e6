//! Counting the bytes of a sequence, alone and by the byte that precedes
//! them: the tables from which order-0 and order-1 entropy are computed.
use vstd::prelude::*;
use vstd::std_specs::iter::IteratorSpec;

verus! {

/// How many entries of `content` equal `byte`.
pub open spec fn occurrences(content: Seq<u8>, byte: u8) -> nat
    decreases content.len(),
{
    if content.len() == 0 {
        0
    } else {
        occurrences(content.drop_last(), byte) + if content.last() == byte {
            1nat
        } else {
            0nat
        }
    }
}

/// The byte that precedes entry `i` of `content`; zero precedes the first
/// entry.
pub open spec fn predecessor(content: Seq<u8>, i: int) -> u8 {
    if i == 0 {
        0
    } else {
        content[i - 1]
    }
}

/// How many entries of `content` equal `second` and are preceded by
/// `first`.
pub open spec fn transitions(content: Seq<u8>, first: u8, second: u8) -> nat
    decreases content.len(),
{
    if content.len() == 0 {
        0
    } else {
        transitions(content.drop_last(), first, second) + if content.last() == second
            && predecessor(content, content.len() - 1) == first {
            1nat
        } else {
            0nat
        }
    }
}

/// How many entries of `content` are preceded by `first`.
pub open spec fn successors(content: Seq<u8>, first: u8) -> nat
    decreases content.len(),
{
    if content.len() == 0 {
        0
    } else {
        successors(content.drop_last(), first) + if predecessor(content, content.len() - 1)
            == first {
            1nat
        } else {
            0nat
        }
    }
}

/// No byte occurs more often than there are entries.
pub proof fn lemma_occurrences_bound(content: Seq<u8>, byte: u8)
    ensures
        occurrences(content, byte) <= content.len(),
    decreases content.len(),
{
    if content.len() > 0 {
        lemma_occurrences_bound(content.drop_last(), byte);
    }
}

/// No transition occurs more often than its first byte has successors,
/// and no byte has more successors than there are entries.
pub proof fn lemma_transitions_bound(content: Seq<u8>, first: u8, second: u8)
    ensures
        transitions(content, first, second) <= successors(content, first) <= content.len(),
    decreases content.len(),
{
    if content.len() > 0 {
        lemma_transitions_bound(content.drop_last(), first, second);
    }
}

/// How often each byte value occurs.
#[derive(Debug, Clone, Copy)]
pub struct CountTable {
    counters: [usize; 256],
    sum: usize,
}

/// How often each byte value follows each byte value.
#[derive(Debug, Clone, Copy)]
pub struct ConditionalCountTable {
    tables: [CountTable; 256],
    sum: usize,
}

impl CountTable {
    /// The count of `byte`.
    pub closed spec fn count(&self, byte: u8) -> nat {
        self.counters@[byte as int] as nat
    }

    /// The number of bytes counted.
    pub closed spec fn total(&self) -> nat {
        self.sum as nat
    }

    /// A table with every count zero.
    pub fn zeroed() -> (table: Self)
        ensures
            table.total() == 0,
            forall|byte: u8| #[trigger] table.count(byte) == 0,
    {
        Self { counters: [0;256], sum: 0 }
    }

    /// The count of `byte`.
    pub fn counter(&self, byte: u8) -> (count: usize)
        ensures
            count == self.count(byte),
    {
        self.counters[byte as usize]
    }

    /// The number of bytes counted.
    pub fn sum(&self) -> (sum: usize)
        ensures
            sum == self.total(),
    {
        self.sum
    }
}

impl ConditionalCountTable {
    /// How often `second` follows `first`.
    pub closed spec fn count(&self, first: u8, second: u8) -> nat {
        self.tables@[first as int].count(second)
    }

    /// How often any byte follows `first`.
    pub closed spec fn row_total(&self, first: u8) -> nat {
        self.tables@[first as int].total()
    }

    /// The number of bytes counted.
    pub closed spec fn total(&self) -> nat {
        self.sum as nat
    }

    /// A table with every count zero.
    pub fn zeroed() -> (table: Self)
        ensures
            table.total() == 0,
            forall|first: u8| #[trigger] table.row_total(first) == 0,
            forall|first: u8, second: u8| #[trigger] table.count(first, second) == 0,
    {
        Self { tables: [CountTable::zeroed();256], sum: 0 }
    }

    /// The counts of the bytes that follow `first`.
    pub fn row(&self, first: u8) -> (row: CountTable)
        ensures
            row.total() == self.row_total(first),
            forall|second: u8| #[trigger] row.count(second) == self.count(first, second),
    {
        self.tables[first as usize]
    }

    /// The number of bytes counted.
    pub fn sum(&self) -> (sum: usize)
        ensures
            sum == self.total(),
    {
        self.sum
    }
}

/// Counts the bytes of `content`.
pub fn count(content: &[u8]) -> (table: CountTable)
    ensures
        table.total() == content@.len(),
        forall|byte: u8| #[trigger] table.count(byte) == occurrences(content@, byte),
{
    let mut table = CountTable::zeroed();
    let mut i: usize = 0;
    while i < content.len()
        invariant
            i <= content.len(),
            forall|byte: u8|
                #[trigger] table.count(byte) == occurrences(content@.take(i as int), byte),
        decreases content.len() - i,
    {
        let byte = content[i];
        let ghost before = table;
        let ghost prefix = content@.take(i as int);
        let ghost longer = content@.take(i + 1);
        proof {
            assert(longer.drop_last() =~= prefix);
            assert(longer.last() == byte);
            lemma_occurrences_bound(prefix, byte);
            assert(before.count(byte) <= i);
        }
        table.counters[byte as usize] += 1;
        i += 1;
        proof {
            assert forall|b: u8| #[trigger] table.count(b) == occurrences(longer, b) by {
                assert(before.count(b) == occurrences(prefix, b));
            }
        }
    }
    let ghost counted = table;
    table.sum = content.len();
    proof {
        assert(content@.take(content@.len() as int) =~= content@);
        assert forall|b: u8| #[trigger] table.count(b) == occurrences(content@, b) by {
            assert(counted.count(b) == table.count(b));
        }
    }
    table
}

/// Counts the bytes that `content` yields.
pub fn count_iter<I: Iterator<Item = u8>>(content: I) -> (table: CountTable)
    requires
        content.obeys_prophetic_iter_laws(),
        content.decrease() is Some,
        content.remaining().len() <= usize::MAX,
    ensures
        table.total() == content.remaining().len(),
        forall|byte: u8| #[trigger] table.count(byte) == occurrences(content.remaining(), byte),
{
    let mut table = CountTable::zeroed();
    let mut len: usize = 0;
    let mut content = content;
    let ghost all = content.remaining();
    proof {
        assert(all.take(0) =~= Seq::<u8>::empty());
        assert(all.skip(0) =~= all);
    }
    loop
        invariant
            content.obeys_prophetic_iter_laws(),
            content.decrease() is Some,
            all.len() <= usize::MAX,
            len <= all.len(),
            content.remaining() == all.skip(len as int),
            forall|byte: u8| #[trigger] table.count(byte) == occurrences(all.take(len as int), byte),
        ensures
            len == all.len(),
            forall|byte: u8| #[trigger] table.count(byte) == occurrences(all, byte),
        decreases content.decrease()->0,
    {
        let ghost before = table;
        let ghost prefix = all.take(len as int);
        let ghost longer = all.take(len + 1);
        match content.next() {
            Some(byte) => {
                proof {
                    assert(longer.drop_last() =~= prefix);
                    assert(longer.last() == byte);
                    lemma_occurrences_bound(prefix, byte);
                    assert(before.count(byte) <= len);
                    assert(all.skip(len as int).drop_first() =~= all.skip(len + 1));
                }
                table.counters[byte as usize] += 1;
                len += 1;
                proof {
                    assert forall|b: u8| #[trigger] table.count(b) == occurrences(longer, b) by {
                        assert(before.count(b) == occurrences(prefix, b));
                    }
                }
            },
            None => {
                proof {
                    assert(all.take(len as int) =~= all);
                }
                break ;
            },
        }
    }
    let ghost counted = table;
    table.sum = len;
    proof {
        assert forall|b: u8| #[trigger] table.count(b) == occurrences(all, b) by {
            assert(counted.count(b) == table.count(b));
        }
    }
    table
}

/// Counts, for every pair of byte values, how often the second follows
/// the first in `content`. A zero byte is taken to precede the first
/// entry.
pub fn conditional_count(content: &[u8]) -> (table: ConditionalCountTable)
    ensures
        table.total() == content@.len(),
        forall|first: u8| #[trigger] table.row_total(first) == successors(content@, first),
        forall|first: u8, second: u8| #[trigger]
            table.count(first, second) == transitions(content@, first, second),
{
    let mut table = ConditionalCountTable::zeroed();
    let mut first: u8 = 0;
    let mut i: usize = 0;
    while i < content.len()
        invariant
            i <= content.len(),
            first == predecessor(content@, i as int),
            forall|a: u8| #[trigger]
                table.row_total(a) == successors(content@.take(i as int), a),
            forall|a: u8, b: u8| #[trigger]
                table.count(a, b) == transitions(content@.take(i as int), a, b),
        decreases content.len() - i,
    {
        let second = content[i];
        let ghost before = table;
        let ghost prefix = content@.take(i as int);
        let ghost longer = content@.take(i + 1);
        proof {
            assert(longer.drop_last() =~= prefix);
            assert(longer.last() == second);
            assert(predecessor(longer, i as int) == first);
            lemma_transitions_bound(prefix, first, second);
            assert(before.count(first, second) == transitions(prefix, first, second));
            assert(before.row_total(first) == successors(prefix, first));
        }
        let mut row = table.tables[first as usize];
        row.counters[second as usize] += 1;
        row.sum += 1;
        table.tables[first as usize] = row;
        proof {
            assert forall|a: u8| #[trigger] table.row_total(a) == successors(longer, a) by {
                assert(before.row_total(a) == successors(prefix, a));
            }
            assert forall|a: u8, b: u8| #[trigger]
                table.count(a, b) == transitions(longer, a, b) by {
                assert(before.count(a, b) == transitions(prefix, a, b));
            }
        }
        first = second;
        i += 1;
    }
    let ghost counted = table;
    table.sum = content.len();
    proof {
        assert(content@.take(content@.len() as int) =~= content@);
        assert forall|a: u8| #[trigger] table.row_total(a) == successors(content@, a) by {
            assert(counted.row_total(a) == table.row_total(a));
        }
        assert forall|a: u8, b: u8| #[trigger]
            table.count(a, b) == transitions(content@, a, b) by {
            assert(counted.count(a, b) == table.count(a, b));
        }
    }
    table
}

} // verus!
