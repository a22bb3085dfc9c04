use vstd::prelude::*;

use crate::alphabet::{is_symbol, is_symbol_char};

verus! {

/// How often `c` occurs in `s`.
pub open spec fn occurrences(s: Seq<char>, c: char) -> nat
    decreases s.len(),
{
    if s.len() == 0 {
        0
    } else {
        occurrences(s.drop_last(), c) + if s.last() == c {
            1nat
        } else {
            0nat
        }
    }
}

/// How often `c` occurs in `s` when `c` is a symbol; no non-symbol is counted.
pub open spec fn symbol_occurrences(s: Seq<char>, c: char) -> nat {
    if is_symbol(c) {
        occurrences(s, c)
    } else {
        0
    }
}

/// The count that `m` holds for `c`, zero where it holds none.
pub open spec fn count_in(m: Map<char, nat>, c: char) -> nat {
    if m.contains_key(c) {
        m[c]
    } else {
        0
    }
}

/// The table `m` after the symbols of `s` were added to it: every symbol of
/// `s` gains one entry or one count per occurrence; nothing else changes.
pub open spec fn tally(m: Map<char, nat>, s: Seq<char>) -> Map<char, nat> {
    Map::new(
        |c: char| m.contains_key(c) || symbol_occurrences(s, c) > 0,
        |c: char| count_in(m, c) + symbol_occurrences(s, c),
    )
}

/// The count held for `c` by a list of entries whose characters are unique.
pub open spec fn entry_count(entries: Seq<(char, usize)>, c: char) -> nat
    decreases entries.len(),
{
    if entries.len() == 0 {
        0
    } else if entries.last().0 == c {
        entries.last().1 as nat
    } else {
        entry_count(entries.drop_last(), c)
    }
}

proof fn lemma_occurrences_step(s: Seq<char>, i: int)
    requires
        0 <= i < s.len(),
    ensures
        forall|x: char|
            #[trigger] occurrences(s.take(i + 1), x) == occurrences(s.take(i), x) + if s[i] == x {
                1nat
            } else {
                0nat
            },
{
    assert(s.take(i + 1).drop_last() =~= s.take(i));
}

proof fn lemma_occurrences_prefix_bound(s: Seq<char>, i: int, x: char)
    requires
        0 <= i <= s.len(),
    ensures
        occurrences(s.take(i), x) <= occurrences(s, x),
    decreases s.len() - i,
{
    if i == s.len() {
        assert(s.take(i) =~= s);
    } else {
        lemma_occurrences_step(s, i);
        lemma_occurrences_prefix_bound(s, i + 1, x);
    }
}

/// A frequency table: a count for each character that has been seen.
pub struct FrequencyTable {
    entries: Vec<(char, usize)>,
}

impl View for FrequencyTable {
    type V = Map<char, nat>;

    closed spec fn view(&self) -> Map<char, nat> {
        Map::new(
            |c: char| entry_count(self.entries@, c) > 0,
            |c: char| entry_count(self.entries@, c),
        )
    }
}

proof fn lemma_entry_count_at(entries: Seq<(char, usize)>, j: int)
    requires
        0 <= j < entries.len(),
        forall|a: int, b: int|
            0 <= a < b < entries.len() ==> #[trigger] entries[a].0 != #[trigger] entries[b].0,
    ensures
        entry_count(entries, entries[j].0) == entries[j].1,
    decreases entries.len(),
{
    if j < entries.len() - 1 {
        lemma_entry_count_at(entries.drop_last(), j);
    }
}

proof fn lemma_entry_count_absent(entries: Seq<(char, usize)>, c: char)
    requires
        forall|j: int| 0 <= j < entries.len() ==> #[trigger] entries[j].0 != c,
    ensures
        entry_count(entries, c) == 0,
    decreases entries.len(),
{
    if entries.len() > 0 {
        lemma_entry_count_absent(entries.drop_last(), c);
    }
}

proof fn lemma_entry_count_update(entries: Seq<(char, usize)>, j: int, n: usize, c: char)
    requires
        0 <= j < entries.len(),
        forall|a: int, b: int|
            0 <= a < b < entries.len() ==> #[trigger] entries[a].0 != #[trigger] entries[b].0,
    ensures
        entry_count(entries.update(j, (entries[j].0, n)), c) == if c == entries[j].0 {
            n as nat
        } else {
            entry_count(entries, c)
        },
    decreases entries.len(),
{
    let u = entries.update(j, (entries[j].0, n));
    if j < entries.len() - 1 {
        assert(u.drop_last() =~= entries.drop_last().update(j, (entries[j].0, n)));
        lemma_entry_count_update(entries.drop_last(), j, n, c);
    } else {
        assert(u.drop_last() =~= entries.drop_last());
        if c == entries[j].0 {
        } else {
        }
    }
}

impl FrequencyTable {
    /// The entries are unique by character and every count is positive.
    pub closed spec fn wf(&self) -> bool {
        &&& forall|a: int, b: int|
            0 <= a < b < self.entries@.len() ==> #[trigger] self.entries@[a].0
                != #[trigger] self.entries@[b].0
        &&& forall|j: int| 0 <= j < self.entries@.len() ==> #[trigger] self.entries@[j].1 > 0
    }

    /// An empty table.
    pub fn new() -> (r: FrequencyTable)
        ensures
            r.wf(),
            r@ == Map::<char, nat>::empty(),
    {
        let r = FrequencyTable { entries: Vec::new() };
        assert(r@ =~= Map::<char, nat>::empty());
        r
    }

    /// The count held for `c`, zero where the table holds none.
    pub fn get(&self, c: char) -> (r: usize)
        requires
            self.wf(),
        ensures
            r == count_in(self@, c),
    {
        let mut j: usize = 0;
        while j < self.entries.len()
            invariant
                self.wf(),
                j <= self.entries@.len(),
                forall|k: int| 0 <= k < j ==> #[trigger] self.entries@[k].0 != c,
            decreases self.entries@.len() - j,
        {
            if self.entries[j].0 == c {
                proof {
                    lemma_entry_count_at(self.entries@, j as int);
                }
                return self.entries[j].1;
            }
            j += 1;
        }
        proof {
            lemma_entry_count_absent(self.entries@, c);
        }
        0
    }

    /// Each character of the table with its count; every character comes once.
    pub fn entries(&self) -> (r: Vec<(char, usize)>)
        requires
            self.wf(),
        ensures
            forall|i: int|
                0 <= i < r@.len() ==> #[trigger] self@.contains_key(r@[i].0) && self@[r@[i].0]
                    == r@[i].1,
            forall|c: char| #[trigger] self@.contains_key(c) ==> exists|i: int|
                0 <= i < r@.len() && (#[trigger] r@[i]).0 == c,
            forall|x: int, y: int| 0 <= x < y < r@.len() ==> (#[trigger] r@[x]).0 != (#[trigger] r@[y]).0,
    {
        let mut r: Vec<(char, usize)> = Vec::new();
        let mut j: usize = 0;
        while j < self.entries.len()
            invariant
                j <= self.entries@.len(),
                r@ == self.entries@.take(j as int),
            decreases self.entries@.len() - j,
        {
            r.push(self.entries[j]);
            j += 1;
        }
        proof {
            let es = self.entries@;
            assert(r@ =~= es);
            assert forall|i: int| 0 <= i < r@.len() implies #[trigger] self@.contains_key(r@[i].0)
                && self@[r@[i].0] == r@[i].1 by {
                lemma_entry_count_at(es, i);
            }
            assert forall|c: char| #[trigger] self@.contains_key(c) implies exists|i: int|
                0 <= i < r@.len() && (#[trigger] r@[i]).0 == c by {
                if forall|i: int| 0 <= i < es.len() ==> #[trigger] es[i].0 != c {
                    lemma_entry_count_absent(es, c);
                }
            }
        }
        r
    }

    /// Adds one occurrence of `c`.
    fn increment(&mut self, c: char)
        requires
            old(self).wf(),
            count_in(old(self)@, c) < usize::MAX,
        ensures
            final(self).wf(),
            final(self)@ == old(self)@.insert(c, count_in(old(self)@, c) + 1),
    {
        let ghost before = self.entries@;
        let mut j: usize = 0;
        while j < self.entries.len()
            invariant
                self.entries@ == before,
                old(self).wf(),
                old(self).entries@ == before,
                count_in(old(self)@, c) < usize::MAX,
                j <= before.len(),
                forall|k: int| 0 <= k < j ==> #[trigger] before[k].0 != c,
            decreases before.len() - j,
        {
            if self.entries[j].0 == c {
                proof {
                    lemma_entry_count_at(before, j as int);
                }
                let n = self.entries[j].1 + 1;
                self.entries.set(j, (c, n));
                proof {
                    assert forall|x: char|
                        entry_count(self.entries@, x) == if x == c {
                            n as nat
                        } else {
                            entry_count(before, x)
                        } by {
                        lemma_entry_count_update(before, j as int, n, x);
                    }
                    assert(self@ =~= old(self)@.insert(c, count_in(old(self)@, c) + 1));
                }
                return;
            }
            j += 1;
        }
        proof {
            lemma_entry_count_absent(before, c);
        }
        self.entries.push((c, 1));
        proof {
            assert(self.entries@.drop_last() =~= before);
            assert(self@ =~= old(self)@.insert(c, count_in(old(self)@, c) + 1));
        }
    }
}

} // verus!

verus! {

/// Adds the symbols of `content` to `symbols`: one count per occurrence of each
/// symbol, a new entry for a symbol seen for the first time; characters outside
/// the alphabet leave the table as it is.
pub fn count_symbols(content: String, symbols: &mut FrequencyTable)
    requires
        old(symbols).wf(),
        forall|c: char|
            is_symbol(c) ==> #[trigger] count_in(old(symbols)@, c) + occurrences(content@, c)
                <= usize::MAX,
    ensures
        final(symbols).wf(),
        final(symbols)@ == tally(old(symbols)@, content@),
{
    let ghost start = symbols@;
    for c in it: content.chars()
        invariant
            it.seq() == content@,
            symbols.wf(),
            symbols@ == tally(start, content@.take(it.index() as int)),
            forall|x: char|
                is_symbol(x) ==> #[trigger] count_in(start, x) + occurrences(content@, x)
                    <= usize::MAX,
    {
        let ghost i = it.index() as int;
        proof {
            lemma_occurrences_step(content@, i);
            lemma_occurrences_prefix_bound(content@, i + 1, c);
        }
        if is_symbol_char(c) {
            symbols.increment(c);
        }
        assert(symbols@ =~= tally(start, content@.take(i + 1)));
    }
    assert(content@.take(content@.len() as int) =~= content@);
}

} // verus!

verus! {

/// Counting two texts into one table gives the same table whichever text is
/// counted first, so a run over many files does not depend on their order.
pub proof fn lemma_tally_order_independent(m: Map<char, nat>, a: Seq<char>, b: Seq<char>)
    ensures
        tally(tally(m, a), b) == tally(tally(m, b), a),
{
    assert(tally(tally(m, a), b) =~= tally(tally(m, b), a));
}

proof fn lemma_no_symbol_occurs(s: Seq<char>, c: char)
    requires
        is_symbol(c),
        forall|i: int| 0 <= i < s.len() ==> !is_symbol(#[trigger] s[i]),
    ensures
        occurrences(s, c) == 0,
    decreases s.len(),
{
    if s.len() > 0 {
        lemma_no_symbol_occurs(s.drop_last(), c);
    }
}

/// Counting a text that holds no symbol leaves a table as it was.
pub proof fn lemma_tally_without_symbols(m: Map<char, nat>, s: Seq<char>)
    requires
        forall|i: int| 0 <= i < s.len() ==> !is_symbol(#[trigger] s[i]),
    ensures
        tally(m, s) == m,
{
    assert forall|c: char| #[trigger] symbol_occurrences(s, c) == 0 by {
        if is_symbol(c) {
            lemma_no_symbol_occurs(s, c);
        }
    }
    assert(tally(m, s) =~= m);
}

} // verus!

verus! {

proof fn lemma_occurrences_concat(a: Seq<char>, b: Seq<char>, c: char)
    ensures
        occurrences(a + b, c) == occurrences(a, c) + occurrences(b, c),
    decreases b.len(),
{
    if b.len() == 0 {
        assert(a + b =~= a);
    } else {
        assert((a + b).drop_last() =~= a + b.drop_last());
        lemma_occurrences_concat(a, b.drop_last(), c);
    }
}

/// Counting two texts one after the other gives the same table as counting
/// them joined into one text.
pub proof fn lemma_tally_concat(m: Map<char, nat>, a: Seq<char>, b: Seq<char>)
    ensures
        tally(tally(m, a), b) == tally(m, a + b),
{
    assert forall|c: char| #[trigger] occurrences(a + b, c) == occurrences(a, c) + occurrences(
        b,
        c,
    ) by {
        lemma_occurrences_concat(a, b, c);
    }
    assert(tally(tally(m, a), b) =~= tally(m, a + b));
}

} // verus!
