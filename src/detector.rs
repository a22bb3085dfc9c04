use vstd::prelude::*;

use itertools::Itertools;

use crate::alphabet::{is_symbol, is_symbol_char};

verus! {

/// The number of chunks of at most two characters that `s` falls into.
pub open spec fn chunk_count(s: Seq<char>) -> int {
    (s.len() + 1) as int / 2
}

/// Chunk `i` of `s` holds two distinct symbols.
pub open spec fn is_pair_chunk(s: Seq<char>, i: int) -> bool {
    &&& 0 <= i
    &&& 2 * i + 1 < s.len()
    &&& is_symbol(s[2 * i])
    &&& is_symbol(s[2 * i + 1])
    &&& s[2 * i] != s[2 * i + 1]
}

/// Chunk `i` of `s` holds one symbol twice.
pub open spec fn is_repeat_chunk(s: Seq<char>, i: int) -> bool {
    &&& 0 <= i
    &&& 2 * i + 1 < s.len()
    &&& is_symbol(s[2 * i])
    &&& s[2 * i] == s[2 * i + 1]
}

/// How many of the first `k` chunks of `s` hold the pair `a`, `b`, in that order.
pub open spec fn pair_count(s: Seq<char>, k: int, a: char, b: char) -> nat
    decreases k,
{
    if k <= 0 {
        0
    } else {
        pair_count(s, k - 1, a, b) + if is_pair_chunk(s, k - 1) && s[2 * (k - 1)] == a && s[2 * (k
            - 1) + 1] == b {
            1nat
        } else {
            0nat
        }
    }
}

/// How many of the first `k` chunks of `s` hold two distinct symbols.
pub open spec fn pair_chunks(s: Seq<char>, k: int) -> nat
    decreases k,
{
    if k <= 0 {
        0
    } else {
        pair_chunks(s, k - 1) + if is_pair_chunk(s, k - 1) {
            1nat
        } else {
            0nat
        }
    }
}

/// The bigrams of `s`: absent where `s` is empty, where a chunk repeats one
/// symbol, or where no chunk pairs two distinct symbols; else each pair with the
/// number of chunks that hold it.
pub open spec fn bigrams_of(s: Seq<char>) -> Option<Map<(char, char), nat>> {
    if s.len() == 0 || (exists|i: int| #[trigger] is_repeat_chunk(s, i)) || !(exists|i: int|
        #[trigger] is_pair_chunk(s, i)) {
        None
    } else {
        Some(
            Map::new(
                |k: (char, char)| pair_count(s, chunk_count(s), k.0, k.1) > 0,
                |k: (char, char)| pair_count(s, chunk_count(s), k.0, k.1),
            ),
        )
    }
}

/// Relies on itertools' `Itertools::chunks`: the characters of `s` in order, cut
/// into consecutive chunks of `size`, the last one shorter where they run out.
#[verifier::external_body]
fn chunks_of(s: &str, size: usize) -> (r: Vec<Vec<char>>)
    requires
        size > 0,
    ensures
        r@.len() == (s@.len() + size - 1) / size as int,
        forall|i: int|
            0 <= i < r@.len() ==> (#[trigger] r@[i])@ == s@.subrange(
                i * size,
                if (i + 1) * size <= s@.len() {
                    (i + 1) * size
                } else {
                    s@.len() as int
                },
            ),
{
    let chunks = s.chars().chunks(size);
    let r: Vec<Vec<char>> = chunks.into_iter().map(|c| c.collect()).collect();
    r
}

} // verus!

verus! {

/// The count held for the pair `a`, `b` by a list of entries whose pairs are unique.
pub open spec fn pair_entry_count(entries: Seq<(char, char, u32)>, a: char, b: char) -> nat
    decreases entries.len(),
{
    if entries.len() == 0 {
        0
    } else if entries.last().0 == a && entries.last().1 == b {
        entries.last().2 as nat
    } else {
        pair_entry_count(entries.drop_last(), a, b)
    }
}

pub open spec fn unique_pairs(entries: Seq<(char, char, u32)>) -> bool {
    forall|x: int, y: int|
        0 <= x < y < entries.len() ==> (#[trigger] entries[x].0 != #[trigger] entries[y].0
            || entries[x].1 != entries[y].1)
}

proof fn lemma_pair_entry_at(entries: Seq<(char, char, u32)>, j: int)
    requires
        0 <= j < entries.len(),
        unique_pairs(entries),
    ensures
        pair_entry_count(entries, entries[j].0, entries[j].1) == entries[j].2,
    decreases entries.len(),
{
    if j < entries.len() - 1 {
        lemma_pair_entry_at(entries.drop_last(), j);
    }
}

proof fn lemma_pair_entry_absent(entries: Seq<(char, char, u32)>, a: char, b: char)
    requires
        forall|j: int|
            0 <= j < entries.len() ==> (#[trigger] entries[j].0 != a || entries[j].1 != b),
    ensures
        pair_entry_count(entries, a, b) == 0,
    decreases entries.len(),
{
    if entries.len() > 0 {
        lemma_pair_entry_absent(entries.drop_last(), a, b);
    }
}

proof fn lemma_pair_entry_update(
    entries: Seq<(char, char, u32)>,
    j: int,
    n: u32,
    a: char,
    b: char,
)
    requires
        0 <= j < entries.len(),
        unique_pairs(entries),
    ensures
        pair_entry_count(entries.update(j, (entries[j].0, entries[j].1, n)), a, b) == if a
            == entries[j].0 && b == entries[j].1 {
            n as nat
        } else {
            pair_entry_count(entries, a, b)
        },
    decreases entries.len(),
{
    let u = entries.update(j, (entries[j].0, entries[j].1, n));
    if j < entries.len() - 1 {
        assert(u.drop_last() =~= entries.drop_last().update(
            j,
            (entries[j].0, entries[j].1, n),
        ));
        lemma_pair_entry_update(entries.drop_last(), j, n, a, b);
    } else {
        assert(u.drop_last() =~= entries.drop_last());
    }
}

/// Relies on std's `FromIterator<char>` for `String`: the string of the given
/// characters, in order.
#[verifier::external_body]
fn pair_string(a: char, b: char) -> (r: String)
    ensures
        r@ == seq![a, b],
{
    [a, b].into_iter().collect()
}

/// The pairs of a list of unique entries with positive counts are exactly the
/// keys with a positive count, one per entry.
proof fn lemma_table_domain(entries: Seq<(char, char, u32)>)
    requires
        unique_pairs(entries),
        forall|j: int| 0 <= j < entries.len() ==> #[trigger] entries[j].2 > 0,
    ensures
        Set::new(|k: (char, char)| pair_entry_count(entries, k.0, k.1) > 0).finite(),
        Set::new(|k: (char, char)| pair_entry_count(entries, k.0, k.1) > 0).len() == entries.len(),
    decreases entries.len(),
{
    let dom = Set::new(|k: (char, char)| pair_entry_count(entries, k.0, k.1) > 0);
    if entries.len() == 0 {
        assert(dom =~= Set::empty());
    } else {
        let rest = entries.drop_last();
        lemma_table_domain(rest);
        let last = (entries.last().0, entries.last().1);
        let rdom = Set::new(|k: (char, char)| pair_entry_count(rest, k.0, k.1) > 0);
        assert forall|j: int| 0 <= j < rest.len() implies (#[trigger] rest[j].0 != last.0 || rest[j].1 != last.1) by {
            assert(entries[j] == rest[j]);
        }
        lemma_pair_entry_absent(rest, last.0, last.1);
        assert(dom =~= rdom.insert(last));
        assert(!rdom.contains(last));
    }
}

/// The bigrams found in one text, each with how often it occurs.
pub struct BigramTable {
    entries: Vec<(char, char, u32)>,
}

impl View for BigramTable {
    type V = Map<(char, char), nat>;

    closed spec fn view(&self) -> Map<(char, char), nat> {
        Map::new(
            |k: (char, char)| pair_entry_count(self.entries@, k.0, k.1) > 0,
            |k: (char, char)| pair_entry_count(self.entries@, k.0, k.1),
        )
    }
}

impl BigramTable {
    /// The entries are unique by pair and every count is positive.
    pub closed spec fn wf(&self) -> bool {
        &&& unique_pairs(self.entries@)
        &&& forall|j: int| 0 <= j < self.entries@.len() ==> #[trigger] self.entries@[j].2 > 0
    }

    /// The count held for the pair `a`, `b`, zero where the table holds none.
    pub fn get(&self, a: char, b: char) -> (r: u32)
        requires
            self.wf(),
        ensures
            r == pair_count_in(self@, (a, b)),
    {
        let mut j: usize = 0;
        while j < self.entries.len()
            invariant
                self.wf(),
                j <= self.entries@.len(),
                forall|k: int|
                    0 <= k < j ==> (#[trigger] self.entries@[k].0 != a || self.entries@[k].1 != b),
            decreases self.entries@.len() - j,
        {
            if self.entries[j].0 == a && self.entries[j].1 == b {
                proof {
                    lemma_pair_entry_at(self.entries@, j as int);
                }
                return self.entries[j].2;
            }
            j += 1;
        }
        proof {
            lemma_pair_entry_absent(self.entries@, a, b);
        }
        0
    }

    /// The number of distinct bigrams in the table.
    pub fn len(&self) -> (r: usize)
        requires
            self.wf(),
        ensures
            r == self@.dom().len(),
    {
        proof {
            lemma_table_domain(self.entries@);
        }
        self.entries.len()
    }

    /// Each bigram as a two-character string, with its count; every bigram of
    /// the table comes once.
    pub fn entries(&self) -> (r: Vec<(String, u32)>)
        requires
            self.wf(),
        ensures
            r@.len() == self@.dom().len(),
            forall|i: int|
                0 <= i < r@.len() ==> {
                    &&& (#[trigger] r@[i]).0@.len() == 2
                    &&& self@.contains_key((r@[i].0@[0], r@[i].0@[1]))
                    &&& self@[(r@[i].0@[0], r@[i].0@[1])] == r@[i].1
                },
            forall|k: (char, char)|
                #[trigger] self@.contains_key(k) ==> exists|i: int|
                    0 <= i < r@.len() && (#[trigger] r@[i]).0@ == seq![k.0, k.1],
            forall|x: int, y: int| 0 <= x < y < r@.len() ==> (#[trigger] r@[x]).0@ != (#[trigger] r@[y]).0@,
    {
        proof {
            lemma_table_domain(self.entries@);
        }
        let mut r: Vec<(String, u32)> = Vec::new();
        let mut j: usize = 0;
        while j < self.entries.len()
            invariant
                self.wf(),
                j <= self.entries@.len(),
                r@.len() == j,
                forall|i: int|
                    0 <= i < j ==> (#[trigger] r@[i]).0@ == seq![self.entries@[i].0, self.entries@[i].1]
                        && r@[i].1 == self.entries@[i].2,
            decreases self.entries@.len() - j,
        {
            let e = self.entries[j];
            r.push((pair_string(e.0, e.1), e.2));
            j += 1;
        }
        proof {
            let es = self.entries@;
            assert forall|i: int| 0 <= i < r@.len() implies {
                &&& (#[trigger] r@[i]).0@.len() == 2
                &&& self@.contains_key((r@[i].0@[0], r@[i].0@[1]))
                &&& self@[(r@[i].0@[0], r@[i].0@[1])] == r@[i].1
            } by {
                lemma_pair_entry_at(es, i);
            }
            assert forall|k: (char, char)| #[trigger] self@.contains_key(k) implies exists|i: int|
                0 <= i < r@.len() && (#[trigger] r@[i]).0@ == seq![k.0, k.1] by {
                if forall|i: int| 0 <= i < es.len() ==> (#[trigger] es[i].0 != k.0 || es[i].1 != k.1) {
                    lemma_pair_entry_absent(es, k.0, k.1);
                }
                let i = choose|i: int| 0 <= i < es.len() && !(#[trigger] es[i].0 != k.0 || es[i].1 != k.1);
                assert(r@[i].0@ == seq![k.0, k.1]);
            }
            assert forall|x: int, y: int| 0 <= x < y < r@.len() implies (#[trigger] r@[x]).0@ != (#[trigger] r@[y]).0@ by {
                assert(r@[x].0@[0] == es[x].0 && r@[x].0@[1] == es[x].1);
                assert(r@[y].0@[0] == es[y].0 && r@[y].0@[1] == es[y].1);
            }
        }
        r
    }

    /// Adds one occurrence of the pair `a`, `b`.
    fn record(&mut self, a: char, b: char)
        requires
            old(self).wf(),
            pair_entry_count(old(self).entries@, a, b) < u32::MAX,
        ensures
            final(self).wf(),
            final(self).entries@.len() > 0,
            forall|x: char, y: char|
                #[trigger] pair_entry_count(final(self).entries@, x, y) == pair_entry_count(
                    old(self).entries@,
                    x,
                    y,
                ) + if x == a && y == b {
                    1nat
                } else {
                    0nat
                },
    {
        let ghost before = self.entries@;
        let mut j: usize = 0;
        while j < self.entries.len()
            invariant
                self.entries@ == before,
                old(self).wf(),
                old(self).entries@ == before,
                pair_entry_count(before, a, b) < u32::MAX,
                j <= before.len(),
                forall|k: int| 0 <= k < j ==> (#[trigger] before[k].0 != a || before[k].1 != b),
            decreases before.len() - j,
        {
            if self.entries[j].0 == a && self.entries[j].1 == b {
                proof {
                    lemma_pair_entry_at(before, j as int);
                }
                let n = self.entries[j].2 + 1;
                self.entries.set(j, (a, b, n));
                proof {
                    assert forall|x: char, y: char|
                        #[trigger] pair_entry_count(self.entries@, x, y) == pair_entry_count(
                            before,
                            x,
                            y,
                        ) + if x == a && y == b {
                            1nat
                        } else {
                            0nat
                        } by {
                        lemma_pair_entry_update(before, j as int, n, x, y);
                    }
                }
                return;
            }
            j += 1;
        }
        proof {
            lemma_pair_entry_absent(before, a, b);
        }
        self.entries.push((a, b, 1));
        proof {
            assert(self.entries@.drop_last() =~= before);
        }
    }
}

} // verus!

verus! {

proof fn lemma_pair_count_bound(s: Seq<char>, k: int, a: char, b: char)
    requires
        0 <= k,
    ensures
        pair_count(s, k, a, b) <= k,
    decreases k,
{
    if k > 0 {
        lemma_pair_count_bound(s, k - 1, a, b);
    }
}

/// Counts the bigrams of `input`: the text is cut into consecutive chunks of two
/// characters; a chunk of two distinct symbols counts once for its pair, a chunk
/// that repeats one symbol makes the whole result absent, and any other chunk
/// (a non-symbol first or second, or a lone last character) is passed over.
/// Absent too where the text is empty or no chunk pairs two symbols.
pub fn count_symbol_bigrams(input: &str) -> (r: Option<BigramTable>)
    requires
        input@.len() <= u32::MAX,
    ensures
        r is None <==> bigrams_of(input@) is None,
        r matches Some(t) ==> t.wf() && bigrams_of(input@) == Some(t@),
{
    let ghost s = input@;
    if input.is_empty() {
        return None;
    }
    let chunks = chunks_of(input, 2);
    let mut table = BigramTable { entries: Vec::new() };
    let mut i: usize = 0;
    while i < chunks.len()
        invariant
            s == input@,
            s.len() <= u32::MAX,
            chunks@.len() == chunk_count(s),
            forall|c: int|
                0 <= c < chunks@.len() ==> (#[trigger] chunks@[c])@ == s.subrange(
                    c * 2,
                    if (c + 1) * 2 <= s.len() {
                        (c + 1) * 2
                    } else {
                        s.len() as int
                    },
                ),
            i <= chunks@.len(),
            table.wf(),
            forall|a: char, b: char|
                #[trigger] pair_entry_count(table.entries@, a, b) == pair_count(s, i as int, a, b),
            forall|j: int| 0 <= j < i ==> !#[trigger] is_repeat_chunk(s, j),
            table.entries@.len() > 0 <==> exists|j: int| 0 <= j < i && #[trigger] is_pair_chunk(s, j),
        decreases chunks@.len() - i,
    {
        let chunk = &chunks[i];
        assert(chunk@.len() >= 1 && chunk@[0] == s[2 * i]);
        assert forall|x: char, y: char| #[trigger]
            pair_count(s, i + 1, x, y) == pair_count(s, i as int, x, y) + if is_pair_chunk(
                s,
                i as int,
            ) && s[2 * i] == x && s[2 * i + 1] == y {
                1nat
            } else {
                0nat
            } by {}
        let a = chunk[0];
        if !is_symbol_char(a) {
            i += 1;
            continue;
        }
        if chunk.len() < 2 {
            i += 1;
            continue;
        }
        let b = chunk[1];
        assert(b == s[2 * i + 1]);
        if !is_symbol_char(b) {
            i += 1;
            continue;
        }
        if a == b {
            assert(is_repeat_chunk(s, i as int));
            return None;
        }
        proof {
            lemma_pair_count_bound(s, i as int, a, b);
        }
        table.record(a, b);
        assert(is_pair_chunk(s, i as int));
        i += 1;
    }
    assert forall|j: int| !#[trigger] is_repeat_chunk(s, j) by {
        if 0 <= j && 2 * j + 1 < s.len() {
            assert(j < i);
        }
    }
    if table.entries.len() == 0 {
        assert forall|j: int| !#[trigger] is_pair_chunk(s, j) by {
            if 0 <= j && 2 * j + 1 < s.len() {
                assert(j < i);
            }
        }
        return None;
    }
    let ghost w = choose|j: int| 0 <= j < i && #[trigger] is_pair_chunk(s, j);
    assert(is_pair_chunk(s, w));
    assert(table@ =~= bigrams_of(s)->0);
    Some(table)
}

} // verus!

verus! {

/// A text without any symbol has no bigrams.
pub proof fn lemma_no_symbols_no_bigrams(s: Seq<char>)
    requires
        forall|i: int| 0 <= i < s.len() ==> !is_symbol(#[trigger] s[i]),
    ensures
        bigrams_of(s) is None,
{
    assert forall|i: int| !#[trigger] is_pair_chunk(s, i) by {
        if 0 <= i && 2 * i + 1 < s.len() {
            assert(!is_symbol(s[2 * i]));
        }
    }
}

/// The count that `m` holds for `k`, zero where it holds none.
pub open spec fn pair_count_in(m: Map<(char, char), nat>, k: (char, char)) -> nat {
    if m.contains_key(k) {
        m[k]
    } else {
        0
    }
}

/// The sum of the counts that `m` holds for the pairs listed in `keys`.
pub open spec fn sum_over(m: Map<(char, char), nat>, keys: Seq<(char, char)>) -> nat
    decreases keys.len(),
{
    if keys.len() == 0 {
        0
    } else {
        sum_over(m, keys.drop_last()) + pair_count_in(m, keys.last())
    }
}

spec fn key_sum(s: Seq<char>, k: int, keys: Seq<(char, char)>) -> nat
    decreases keys.len(),
{
    if keys.len() == 0 {
        0
    } else {
        key_sum(s, k, keys.drop_last()) + pair_count(s, k, keys.last().0, keys.last().1)
    }
}

proof fn lemma_key_sum_step(s: Seq<char>, k: int, keys: Seq<(char, char)>)
    requires
        0 <= k,
        keys.no_duplicates(),
    ensures
        key_sum(s, k + 1, keys) == key_sum(s, k, keys) + if is_pair_chunk(s, k) && keys.contains(
            (s[2 * k], s[2 * k + 1]),
        ) {
            1nat
        } else {
            0nat
        },
    decreases keys.len(),
{
    if keys.len() > 0 {
        let rest = keys.drop_last();
        assert(rest.no_duplicates());
        lemma_key_sum_step(s, k, rest);
        let p = (s[2 * k], s[2 * k + 1]);
        if keys.last() == p {
            assert(!rest.contains(p));
        }
        if rest.contains(p) {
            let j = choose|j: int| 0 <= j < rest.len() && rest[j] == p;
            assert(keys[j] == p);
        }
        if keys.contains(p) && keys.last() != p {
            let j = choose|j: int| 0 <= j < keys.len() && keys[j] == p;
            assert(rest[j] == p);
        }
    }
}

proof fn lemma_key_sum_total(s: Seq<char>, k: int, keys: Seq<(char, char)>)
    requires
        0 <= k,
        keys.no_duplicates(),
        forall|p: (char, char)| #[trigger] pair_count(s, k, p.0, p.1) > 0 ==> keys.contains(p),
    ensures
        key_sum(s, k, keys) == pair_chunks(s, k),
    decreases k,
{
    if k == 0 {
        lemma_key_sum_zero(s, keys);
    } else {
        assert forall|p: (char, char)| #[trigger] pair_count(s, k - 1, p.0, p.1) > 0 implies keys.contains(p) by {
            assert(pair_count(s, k, p.0, p.1) >= pair_count(s, k - 1, p.0, p.1));
        }
        lemma_key_sum_total(s, k - 1, keys);
        lemma_key_sum_step(s, k - 1, keys);
        if is_pair_chunk(s, k - 1) {
            let p = (s[2 * (k - 1)], s[2 * (k - 1) + 1]);
            assert(pair_count(s, k, p.0, p.1) > 0);
        }
    }
}

proof fn lemma_key_sum_zero(s: Seq<char>, keys: Seq<(char, char)>)
    ensures
        key_sum(s, 0, keys) == 0,
    decreases keys.len(),
{
    if keys.len() > 0 {
        lemma_key_sum_zero(s, keys.drop_last());
    }
}

proof fn lemma_sum_over_table(s: Seq<char>, keys: Seq<(char, char)>)
    requires
        bigrams_of(s) is Some,
    ensures
        sum_over(bigrams_of(s)->0, keys) == key_sum(s, chunk_count(s), keys),
    decreases keys.len(),
{
    if keys.len() > 0 {
        lemma_sum_over_table(s, keys.drop_last());
    }
}

/// Where a text has bigrams, their counts add up to the number of chunks that
/// hold two distinct symbols: summed over any list of pairs without repeats
/// that names every bigram of the table.
pub proof fn lemma_bigram_total(s: Seq<char>, keys: Seq<(char, char)>)
    requires
        bigrams_of(s) is Some,
        keys.no_duplicates(),
        forall|p: (char, char)| #[trigger] (bigrams_of(s)->0).contains_key(p) ==> keys.contains(p),
    ensures
        sum_over(bigrams_of(s)->0, keys) == pair_chunks(s, chunk_count(s)),
{
    assert forall|p: (char, char)| #[trigger] pair_count(s, chunk_count(s), p.0, p.1) > 0 implies keys.contains(p) by {
        assert((bigrams_of(s)->0).contains_key(p));
    }
    lemma_sum_over_table(s, keys);
    lemma_key_sum_total(s, chunk_count(s), keys);
}

} // verus!
