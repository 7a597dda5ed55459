//! The counter table: a durable, serialized, per-country hit counter.
//!
//! The table maps a short country code to the number of lookups recorded for
//! it. At most one row exists per code, every stored count is at least one
//! (a row is only ever created by a first increment), and counts only grow.

use vstd::prelude::*;

verus! {

/// Failure of the persistence backend (open, schema bootstrap, or statement
/// execution). The in-memory table itself never fails; this error is produced
/// by the backend that carries the table between runs and is routed through
/// the reply channel unchanged.
#[derive(Clone, Copy, Debug, PartialEq, Eq, Structural)]
pub enum StoreError {
    Backend,
}

/// The rows of a counter table, read as a map from country code to count.
/// A later row wins, so on a table with distinct codes each row is visible.
pub open spec fn table_of(rows: Seq<(String, u64)>) -> Map<Seq<char>, u64>
    decreases rows.len(),
{
    if rows.len() == 0 {
        Map::empty()
    } else {
        table_of(rows.drop_last()).insert(rows.last().0@, rows.last().1)
    }
}

/// No two rows share a country code.
pub open spec fn distinct_codes(rows: Seq<(String, u64)>) -> bool {
    forall|i: int, j: int| 0 <= i < j < rows.len() ==> rows[i].0@ != rows[j].0@
}

/// Every stored count is at least one.
pub open spec fn positive_counts(rows: Seq<(String, u64)>) -> bool {
    forall|i: int| 0 <= i < rows.len() ==> rows[i].1 >= 1
}

/// The count a table holds for a code, zero when the code has no row.
pub open spec fn count_of(m: Map<Seq<char>, u64>, code: Seq<char>) -> u64 {
    if m.contains_key(code) {
        m[code]
    } else {
        0
    }
}

/// One more than `n`, held at the 64-bit bound.
pub open spec fn next_count(n: u64) -> u64 {
    if n == u64::MAX {
        n
    } else {
        (n + 1) as u64
    }
}

/// The table after one increment of `code`: an absent code gains a row with
/// count one, a present code has its count raised by one.
pub open spec fn bumped(m: Map<Seq<char>, u64>, code: Seq<char>) -> Map<Seq<char>, u64> {
    m.insert(code, next_count(count_of(m, code)))
}

proof fn lemma_drop_last_distinct(rows: Seq<(String, u64)>)
    requires
        distinct_codes(rows),
        rows.len() > 0,
    ensures
        distinct_codes(rows.drop_last()),
{
    let dl = rows.drop_last();
    assert forall|i: int, j: int| 0 <= i < j < dl.len() implies dl[i].0@ != dl[j].0@ by {
        assert(dl[i] == rows[i]);
        assert(dl[j] == rows[j]);
    }
}

/// A code has a row exactly when some entry carries it.
proof fn lemma_table_domain(rows: Seq<(String, u64)>, c: Seq<char>)
    ensures
        table_of(rows).contains_key(c) <==> (exists|i: int|
            0 <= i < rows.len() && rows[i].0@ == c),
    decreases rows.len(),
{
    if rows.len() > 0 {
        let dl = rows.drop_last();
        lemma_table_domain(dl, c);
        if rows.last().0@ == c {
            assert(rows[rows.len() - 1].0@ == c);
        } else {
            if table_of(rows).contains_key(c) {
                let i = choose|i: int| 0 <= i < dl.len() && dl[i].0@ == c;
                assert(rows[i].0@ == c);
            }
            if exists|i: int| 0 <= i < rows.len() && rows[i].0@ == c {
                let i = choose|i: int| 0 <= i < rows.len() && rows[i].0@ == c;
                assert(dl[i] == rows[i]);
            }
        }
    }
}

/// On a table with distinct codes, each row is visible in the map.
proof fn lemma_table_at(rows: Seq<(String, u64)>, i: int)
    requires
        distinct_codes(rows),
        0 <= i < rows.len(),
    ensures
        table_of(rows).contains_key(rows[i].0@),
        table_of(rows)[rows[i].0@] == rows[i].1,
    decreases rows.len(),
{
    if i < rows.len() - 1 {
        let dl = rows.drop_last();
        lemma_drop_last_distinct(rows);
        assert(dl[i] == rows[i]);
        lemma_table_at(dl, i);
        assert(rows.last().0@ != rows[i].0@);
    }
}

/// Replacing a row by one for the same code rewrites just that code's count.
proof fn lemma_table_update(rows: Seq<(String, u64)>, i: int, v: (String, u64))
    requires
        distinct_codes(rows),
        0 <= i < rows.len(),
        v.0@ == rows[i].0@,
    ensures
        table_of(rows.update(i, v)) == table_of(rows).insert(rows[i].0@, v.1),
    decreases rows.len(),
{
    let c = rows[i].0@;
    let rows2 = rows.update(i, v);
    if i == rows.len() - 1 {
        assert(rows2.drop_last() =~= rows.drop_last());
        assert(rows2.last() == v);
        assert(table_of(rows.drop_last()).insert(c, v.1) =~= table_of(rows.drop_last()).insert(
            c,
            rows.last().1,
        ).insert(c, v.1));
    } else {
        let dl = rows.drop_last();
        lemma_drop_last_distinct(rows);
        assert(dl[i] == rows[i]);
        assert(rows2.drop_last() =~= dl.update(i, v));
        assert(rows2.last() == rows.last());
        lemma_table_update(dl, i, v);
        let lastc = rows.last().0@;
        assert(rows[rows.len() - 1].0@ != rows[i].0@);
        assert(table_of(dl).insert(c, v.1).insert(lastc, rows.last().1) =~= table_of(dl).insert(
            lastc,
            rows.last().1,
        ).insert(c, v.1));
    }
}

/// Appending a row for a code inserts that code into the map.
proof fn lemma_table_push(rows: Seq<(String, u64)>, v: (String, u64))
    ensures
        table_of(rows.push(v)) == table_of(rows).insert(v.0@, v.1),
{
    assert(rows.push(v).drop_last() =~= rows);
    assert(rows.push(v).last() == v);
}

/// The per-country counter table.
///
/// This is the state owned by the dedicated writer context; everything the
/// rest of the system learns about it goes through [`crate::protocol`].
pub struct CounterStore {
    entries: Vec<(String, u64)>,
}

impl View for CounterStore {
    type V = Map<Seq<char>, u64>;

    closed spec fn view(&self) -> Map<Seq<char>, u64> {
        table_of(self.entries@)
    }
}

impl CounterStore {
    /// The table's invariant: one row per code, no zero counts.
    pub closed spec fn wf(&self) -> bool {
        distinct_codes(self.entries@) && positive_counts(self.entries@)
    }

    /// A fresh, empty table.
    pub fn new() -> (r: CounterStore)
        ensures
            r.wf(),
            r@ == Map::<Seq<char>, u64>::empty(),
    {
        CounterStore { entries: Vec::new() }
    }

    /// Upserts the row for `code`: a first increment creates the row with
    /// count one, a later one raises the count by one (a single atomic step;
    /// no read-then-write pair is visible to callers). Accepts any string as
    /// a key and never fails on the in-memory table.
    pub fn increment(&mut self, code: &str) -> (r: Result<(), StoreError>)
        requires
            old(self).wf(),
        ensures
            final(self).wf(),
            final(self)@ == bumped(old(self)@, code@),
            r is Ok,
    {
        let owned: String = code.to_owned();
        let ghost rows0 = self.entries@;
        let mut i: usize = 0;
        while i < self.entries.len()
            invariant
                self.entries@ == rows0,
                rows0 == old(self).entries@,
                distinct_codes(rows0),
                positive_counts(rows0),
                i <= rows0.len(),
                owned@ == code@,
                forall|j: int| 0 <= j < i ==> rows0[j].0@ != code@,
            decreases rows0.len() - i,
        {
            if self.entries[i].0 == owned {
                let n = self.entries[i].1;
                let b = if n == u64::MAX {
                    n
                } else {
                    n + 1
                };
                self.entries[i] = (owned, b);
                proof {
                    let v = self.entries@[i as int];
                    assert(self.entries@ == rows0.update(i as int, v));
                    lemma_table_at(rows0, i as int);
                    lemma_table_update(rows0, i as int, v);
                    assert forall|x: int, y: int|
                        0 <= x < y < self.entries@.len() implies self.entries@[x].0@
                        != self.entries@[y].0@ by {
                        assert(self.entries@[x].0@ == rows0[x].0@);
                        assert(self.entries@[y].0@ == rows0[y].0@);
                    }
                    assert forall|x: int| 0 <= x < self.entries@.len() implies self.entries@[x].1
                        >= 1 by {
                        assert(rows0[x].1 >= 1);
                    }
                }
                return Ok(());
            }
            i += 1;
        }
        proof {
            lemma_table_domain(rows0, code@);
        }
        self.entries.push((owned, 1));
        proof {
            let v = self.entries@[rows0.len() as int];
            assert(self.entries@ == rows0.push(v));
            lemma_table_push(rows0, v);
            assert forall|x: int, y: int|
                0 <= x < y < self.entries@.len() implies self.entries@[x].0@
                != self.entries@[y].0@ by {
                if y < rows0.len() {
                    assert(self.entries@[x] == rows0[x]);
                    assert(self.entries@[y] == rows0[y]);
                } else {
                    assert(self.entries@[x] == rows0[x]);
                    assert(self.entries@[y].0@ == code@);
                }
            }
            assert forall|x: int| 0 <= x < self.entries@.len() implies self.entries@[x].1 >= 1 by {
                if x < rows0.len() {
                    assert(self.entries@[x] == rows0[x]);
                }
            }
        }
        Ok(())
    }

    /// A snapshot of all rows at the moment of the call, in no promised
    /// order: read as a table, the snapshot equals the store's table, and no
    /// code appears twice. Never fails on the in-memory table.
    pub fn list(&self) -> (r: Result<Vec<(String, u64)>, StoreError>)
        requires
            self.wf(),
        ensures
            r matches Ok(rows) && distinct_codes(rows@) && table_of(rows@) == self@,
    {
        let mut out: Vec<(String, u64)> = Vec::new();
        let mut i: usize = 0;
        while i < self.entries.len()
            invariant
                i <= self.entries@.len(),
                out@ == self.entries@.subrange(0, i as int),
            decreases self.entries@.len() - i,
        {
            let code = self.entries[i].0.clone();
            let n = self.entries[i].1;
            proof {
                assert(self.entries@.subrange(0, i + 1) =~= self.entries@.subrange(
                    0,
                    i as int,
                ).push(self.entries@[i as int]));
            }
            out.push((code, n));
            i += 1;
        }
        proof {
            assert(out@ =~= self.entries@);
        }
        Ok(out)
    }
}

/// The table that schema bootstrap leaves behind: whatever table already
/// exists is kept as it is; only where none exists is an empty one created.
pub open spec fn boot_table(prior: Option<Map<Seq<char>, u64>>) -> Map<Seq<char>, u64> {
    match prior {
        Some(m) => m,
        None => Map::empty(),
    }
}

/// The table a backend found on disk, if any, as a map.
pub open spec fn table_found(prior: Option<CounterStore>) -> Option<Map<Seq<char>, u64>> {
    match prior {
        Some(s) => Some(s@),
        None => None,
    }
}

/// Schema bootstrap over the table state the backend found: creating the
/// counter table only if it is absent. Running it on an existing table keeps
/// every row; only a missing table is replaced by an empty one.
pub fn bootstrap(prior: Option<CounterStore>) -> (r: CounterStore)
    requires
        prior matches Some(s) ==> s.wf(),
    ensures
        r.wf(),
        r@ == boot_table(table_found(prior)),
{
    match prior {
        Some(s) => s,
        None => CounterStore::new(),
    }
}

/// Bootstrap is idempotent: bootstrapping the table a bootstrap left behind
/// changes nothing, so a second opening of the same store resets no count.
pub proof fn lemma_bootstrap_idempotent(prior: Option<Map<Seq<char>, u64>>)
    ensures
        boot_table(Some(boot_table(prior))) == boot_table(prior),
{
}

/// Incrementing one code is independent of every other key: it neither
/// creates nor changes a row for any other code.
pub proof fn lemma_key_independence(m: Map<Seq<char>, u64>, code: Seq<char>, other: Seq<char>)
    requires
        other != code,
    ensures
        bumped(m, code).contains_key(other) <==> m.contains_key(other),
        count_of(bumped(m, code), other) == count_of(m, other),
{
}

/// Counts are monotone: an increment never lowers any code's count.
pub proof fn lemma_counts_monotone(m: Map<Seq<char>, u64>, code: Seq<char>, k: Seq<char>)
    ensures
        count_of(bumped(m, code), k) >= count_of(m, k),
{
}

/// A well-formed table never shows a zero count: every row that exists was
/// created by an increment, so a code never incremented has no row at all.
pub proof fn lemma_no_phantom_rows(s: &CounterStore, k: Seq<char>)
    requires
        s.wf(),
        s@.contains_key(k),
    ensures
        s@[k] >= 1,
{
    lemma_table_domain(s.entries@, k);
    let i = choose|i: int| 0 <= i < s.entries@.len() && s.entries@[i].0@ == k;
    lemma_table_at(s.entries@, i);
}

} // verus!
