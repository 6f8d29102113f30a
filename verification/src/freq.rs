//! The frequency table: counting the values observed in one column of a
//! dataset, and selecting the most frequent one.

use vstd::prelude::*;

verus! {

/// A row contributes to the count at column `idx` when it has a field there
/// and that field is nonempty.
pub open spec fn row_qualifies(row: Seq<Seq<char>>, idx: int) -> bool {
    0 <= idx < row.len() && row[idx].len() > 0
}

/// How many rows carry the value `v` in column `idx` (rows without such a
/// field, or with an empty one, never count).
pub open spec fn count_of(rows: Seq<Seq<Seq<char>>>, idx: int, v: Seq<char>) -> nat
    decreases rows.len(),
{
    if rows.len() == 0 {
        0
    } else {
        count_of(rows.drop_last(), idx, v) + (if row_qualifies(rows.last(), idx)
            && rows.last()[idx] == v {
            1nat
        } else {
            0nat
        })
    }
}

/// The distinct qualifying values of column `idx`, in order of first
/// occurrence.
pub open spec fn keys_in_order(rows: Seq<Seq<Seq<char>>>, idx: int) -> Seq<Seq<char>>
    decreases rows.len(),
{
    if rows.len() == 0 {
        Seq::empty()
    } else {
        let prev = keys_in_order(rows.drop_last(), idx);
        if row_qualifies(rows.last(), idx) && !prev.contains(rows.last()[idx]) {
            prev.push(rows.last()[idx])
        } else {
            prev
        }
    }
}

/// The frequency table of column `idx`: each distinct qualifying value, in
/// order of first occurrence, paired with its count.
pub open spec fn table_spec(rows: Seq<Seq<Seq<char>>>, idx: int) -> Seq<(Seq<char>, nat)> {
    keys_in_order(rows, idx).map(|i: int, k: Seq<char>| (k, count_of(rows, idx, k)))
}

/// The entry selected from a table: the first entry whose count no later
/// entry exceeds (a strictly greater count is needed to displace an earlier
/// entry), or nothing from an empty table.
pub open spec fn mode_of(entries: Seq<(Seq<char>, nat)>) -> Option<(Seq<char>, nat)>
    decreases entries.len(),
{
    if entries.len() == 0 {
        None
    } else {
        match mode_of(entries.drop_first()) {
            None => Some(entries[0]),
            Some(b) => if b.1 > entries[0].1 {
                Some(b)
            } else {
                Some(entries[0])
            },
        }
    }
}

proof fn lemma_count_le_len(rows: Seq<Seq<Seq<char>>>, idx: int, v: Seq<char>)
    ensures
        count_of(rows, idx, v) <= rows.len(),
    decreases rows.len(),
{
    if rows.len() > 0 {
        lemma_count_le_len(rows.drop_last(), idx, v);
    }
}

proof fn lemma_count_push(rows: Seq<Seq<Seq<char>>>, idx: int, row: Seq<Seq<char>>, v: Seq<char>)
    ensures
        count_of(rows.push(row), idx, v) == count_of(rows, idx, v) + (if row_qualifies(row, idx)
            && row[idx] == v {
            1nat
        } else {
            0nat
        }),
{
    assert(rows.push(row).drop_last() =~= rows);
    assert(rows.push(row).last() == row);
}

proof fn lemma_keys_push(rows: Seq<Seq<Seq<char>>>, idx: int, row: Seq<Seq<char>>)
    ensures
        keys_in_order(rows.push(row), idx) == (if row_qualifies(row, idx) && !keys_in_order(
            rows,
            idx,
        ).contains(row[idx]) {
            keys_in_order(rows, idx).push(row[idx])
        } else {
            keys_in_order(rows, idx)
        }),
{
    assert(rows.push(row).drop_last() =~= rows);
    assert(rows.push(row).last() == row);
}

/// A value is a key of the table exactly when some row carries it.
pub proof fn lemma_key_iff_count(rows: Seq<Seq<Seq<char>>>, idx: int, v: Seq<char>)
    ensures
        keys_in_order(rows, idx).contains(v) <==> count_of(rows, idx, v) > 0,
    decreases rows.len(),
{
    if rows.len() > 0 {
        lemma_key_iff_count(rows.drop_last(), idx, v);
        let prev = keys_in_order(rows.drop_last(), idx);
        if row_qualifies(rows.last(), idx) && !prev.contains(rows.last()[idx]) {
            if keys_in_order(rows, idx).contains(v) {
                let j = choose|j: int|
                    0 <= j < keys_in_order(rows, idx).len() && keys_in_order(rows, idx)[j] == v;
                if j < prev.len() {
                    assert(prev.contains(v));
                }
            }
            if count_of(rows, idx, v) > 0 {
                if count_of(rows.drop_last(), idx, v) > 0 {
                    assert(prev.contains(v));
                    assert(keys_in_order(rows, idx)[choose|j: int|
                        0 <= j < prev.len() && prev[j] == v] == v);
                } else {
                    assert(keys_in_order(rows, idx).last() == v);
                }
            }
        } else {
            if count_of(rows, idx, v) > 0 && count_of(rows.drop_last(), idx, v) == 0 {
                assert(rows.last()[idx] == v && row_qualifies(rows.last(), idx));
            }
        }
    }
}

/// The keys of a table are distinct.
pub proof fn lemma_keys_distinct(rows: Seq<Seq<Seq<char>>>, idx: int)
    ensures
        forall|p: int, q: int|
            0 <= p < q < keys_in_order(rows, idx).len() ==> keys_in_order(rows, idx)[p]
                != keys_in_order(rows, idx)[q],
    decreases rows.len(),
{
    if rows.len() > 0 {
        lemma_keys_distinct(rows.drop_last(), idx);
        let prev = keys_in_order(rows.drop_last(), idx);
        let ks = keys_in_order(rows, idx);
        if row_qualifies(rows.last(), idx) && !prev.contains(rows.last()[idx]) {
            assert forall|p: int, q: int| 0 <= p < q < ks.len() implies ks[p] != ks[q] by {
                if q == prev.len() {
                    assert(prev[p] == ks[p]);
                    if ks[p] == rows.last()[idx] {
                        assert(prev.contains(rows.last()[idx]));
                    }
                }
            }
        }
    }
}

/// Appending one entry keeps the earlier entries' precedence: the new entry
/// displaces the selected one only with a strictly greater count.
proof fn lemma_mode_push(entries: Seq<(Seq<char>, nat)>, x: (Seq<char>, nat))
    ensures
        mode_of(entries.push(x)) == (match mode_of(entries) {
            None => Some(x),
            Some(b) => if x.1 > b.1 {
                Some(x)
            } else {
                Some(b)
            },
        }),
    decreases entries.len(),
{
    let s = entries.push(x);
    if entries.len() == 0 {
        assert(s.drop_first() =~= Seq::<(Seq<char>, nat)>::empty());
        assert(mode_of(s.drop_first()) is None);
        assert(s[0] == x);
        assert(mode_of(s) == Some(x));
        assert(mode_of(entries) is None);
    } else {
        let rest = entries.drop_first();
        assert(s.drop_first() =~= rest.push(x));
        assert(s[0] == entries[0]);
        lemma_mode_push(rest, x);
        assert(mode_of(s.drop_first()) == (match mode_of(rest) {
            None => Some(x),
            Some(b) => if x.1 > b.1 {
                Some(x)
            } else {
                Some(b)
            },
        }));
        assert(mode_of(entries) == (match mode_of(rest) {
            None => Some(entries[0]),
            Some(b) => if b.1 > entries[0].1 {
                Some(b)
            } else {
                Some(entries[0])
            },
        }));
    }
}

/// The selected entry is an entry of the table, and no entry's count exceeds
/// its count; only an empty table selects nothing.
pub proof fn lemma_mode_props(entries: Seq<(Seq<char>, nat)>)
    requires
        entries.len() > 0,
    ensures
        mode_of(entries) is Some,
        exists|j: int|
            0 <= j < entries.len() && entries[j] == mode_of(entries)->Some_0,
        forall|j: int| 0 <= j < entries.len() ==> entries[j].1 <= mode_of(entries)->Some_0.1,
    decreases entries.len(),
{
    let rest = entries.drop_first();
    if rest.len() > 0 {
        lemma_mode_props(rest);
        let b = mode_of(rest)->Some_0;
        let jr = choose|j: int| 0 <= j < rest.len() && rest[j] == b;
        assert(entries[jr + 1] == rest[jr]);
        assert forall|j: int| 0 <= j < entries.len() implies entries[j].1 <= mode_of(
            entries,
        )->Some_0.1 by {
            if j > 0 {
                assert(rest[j - 1] == entries[j]);
            }
        }
    } else {
        assert(entries[0] == mode_of(entries)->Some_0);
    }
}

/// An empty value is never counted: only a nonempty field qualifies.
pub proof fn lemma_empty_value_never_counted(rows: Seq<Seq<Seq<char>>>, idx: int)
    ensures
        count_of(rows, idx, Seq::empty()) == 0,
        !keys_in_order(rows, idx).contains(Seq::empty()),
    decreases rows.len(),
{
    if rows.len() > 0 {
        lemma_empty_value_never_counted(rows.drop_last(), idx);
    }
    lemma_key_iff_count(rows, idx, Seq::empty());
}

/// A dataset none of whose rows qualifies builds an empty table.
pub proof fn lemma_no_qualifying_rows_empty_table(rows: Seq<Seq<Seq<char>>>, idx: int)
    requires
        forall|i: int| 0 <= i < rows.len() ==> !row_qualifies(#[trigger] rows[i], idx),
    ensures
        keys_in_order(rows, idx) =~= Seq::empty(),
        table_spec(rows, idx) =~= Seq::empty(),
        mode_of(table_spec(rows, idx)) is None,
    decreases rows.len(),
{
    if rows.len() > 0 {
        assert forall|i: int| 0 <= i < rows.drop_last().len() implies !row_qualifies(
            #[trigger] rows.drop_last()[i],
            idx,
        ) by {
            assert(rows.drop_last()[i] == rows[i]);
        }
        lemma_no_qualifying_rows_empty_table(rows.drop_last(), idx);
        assert(!row_qualifies(rows.last(), idx));
    }
}

/// A value strictly more frequent than every other is the selected mode with
/// its count, whatever order the rows come in: the claim depends only on the
/// per-value counts, which no reordering changes.
pub proof fn lemma_unique_mode(rows: Seq<Seq<Seq<char>>>, idx: int, v: Seq<char>)
    requires
        count_of(rows, idx, v) > 0,
        forall|w: Seq<char>| w != v ==> count_of(rows, idx, w) < count_of(rows, idx, v),
    ensures
        mode_of(table_spec(rows, idx)) == Some((v, count_of(rows, idx, v))),
{
    let ks = keys_in_order(rows, idx);
    let tb = table_spec(rows, idx);
    lemma_key_iff_count(rows, idx, v);
    assert(ks.contains(v));
    let jv = choose|j: int| 0 <= j < ks.len() && ks[j] == v;
    assert(tb.len() == ks.len());
    assert(tb[jv] == (v, count_of(rows, idx, v)));
    lemma_mode_props(tb);
    let m = mode_of(tb)->Some_0;
    let jm = choose|j: int| 0 <= j < tb.len() && tb[j] == m;
    assert(tb[jm] == (ks[jm], count_of(rows, idx, ks[jm])));
    if m.0 != v {
        assert(count_of(rows, idx, m.0) < count_of(rows, idx, v));
        assert(tb[jv].1 <= m.1);
        assert(false);
    }
}

/// Removing a row that does not qualify changes no count.
proof fn lemma_count_skip(rows: Seq<Seq<Seq<char>>>, idx: int, i: int, v: Seq<char>)
    requires
        0 <= i < rows.len(),
        !row_qualifies(rows[i], idx),
    ensures
        count_of(rows.remove(i), idx, v) == count_of(rows, idx, v),
    decreases rows.len(),
{
    if i == rows.len() - 1 {
        assert(rows.remove(i) =~= rows.drop_last());
    } else {
        assert(rows.remove(i).drop_last() =~= rows.drop_last().remove(i));
        assert(rows.remove(i).last() == rows.last());
        assert(rows.drop_last()[i] == rows[i]);
        lemma_count_skip(rows.drop_last(), idx, i, v);
    }
}

/// Removing a row that does not qualify changes no key either.
proof fn lemma_keys_skip(rows: Seq<Seq<Seq<char>>>, idx: int, i: int)
    requires
        0 <= i < rows.len(),
        !row_qualifies(rows[i], idx),
    ensures
        keys_in_order(rows.remove(i), idx) == keys_in_order(rows, idx),
    decreases rows.len(),
{
    if i == rows.len() - 1 {
        assert(rows.remove(i) =~= rows.drop_last());
    } else {
        assert(rows.remove(i).drop_last() =~= rows.drop_last().remove(i));
        assert(rows.remove(i).last() == rows.last());
        assert(rows.drop_last()[i] == rows[i]);
        lemma_keys_skip(rows.drop_last(), idx, i);
    }
}

/// A row with no field at the chosen column, or with an empty one,
/// contributes nothing: removing it leaves the whole table unchanged.
pub proof fn lemma_skipped_row(rows: Seq<Seq<Seq<char>>>, idx: int, i: int)
    requires
        0 <= i < rows.len(),
        !row_qualifies(rows[i], idx),
    ensures
        table_spec(rows.remove(i), idx) == table_spec(rows, idx),
{
    lemma_keys_skip(rows, idx, i);
    let ks = keys_in_order(rows, idx);
    assert forall|p: int|
        0 <= p < ks.len() implies table_spec(rows.remove(i), idx)[p] == table_spec(rows, idx)[p] by {
        lemma_count_skip(rows, idx, i, ks[p]);
    }
    assert(table_spec(rows.remove(i), idx) =~= table_spec(rows, idx));
}

/// The count stored with the first entry carrying `v`, or zero where no
/// entry does.
pub open spec fn count_in_table(entries: Seq<(Seq<char>, nat)>, v: Seq<char>) -> nat
    decreases entries.len(),
{
    if entries.len() == 0 {
        0
    } else if entries[0].0 == v {
        entries[0].1
    } else {
        count_in_table(entries.drop_first(), v)
    }
}

proof fn lemma_count_in_table_first_match(entries: Seq<(Seq<char>, nat)>, j: int, v: Seq<char>)
    requires
        0 <= j < entries.len(),
        entries[j].0 == v,
        forall|p: int| 0 <= p < j ==> entries[p].0 != v,
    ensures
        count_in_table(entries, v) == entries[j].1,
    decreases entries.len(),
{
    if j > 0 {
        let rest = entries.drop_first();
        assert(rest[j - 1] == entries[j]);
        assert forall|p: int| 0 <= p < j - 1 implies rest[p].0 != v by {
            assert(rest[p] == entries[p + 1]);
        }
        lemma_count_in_table_first_match(rest, j - 1, v);
    }
}

proof fn lemma_count_in_table_absent(entries: Seq<(Seq<char>, nat)>, v: Seq<char>)
    requires
        forall|p: int| 0 <= p < entries.len() ==> entries[p].0 != v,
    ensures
        count_in_table(entries, v) == 0,
    decreases entries.len(),
{
    if entries.len() > 0 {
        let rest = entries.drop_first();
        assert forall|p: int| 0 <= p < rest.len() implies rest[p].0 != v by {
            assert(rest[p] == entries[p + 1]);
        }
        lemma_count_in_table_absent(rest, v);
    }
}

/// Looking a value up in the built table gives exactly its count over the
/// dataset: the table is the frequency map of the rows.
pub proof fn lemma_lookup_is_count(rows: Seq<Seq<Seq<char>>>, idx: int, v: Seq<char>)
    ensures
        count_in_table(table_spec(rows, idx), v) == count_of(rows, idx, v),
{
    let ks = keys_in_order(rows, idx);
    let tb = table_spec(rows, idx);
    assert(tb.len() == ks.len());
    lemma_key_iff_count(rows, idx, v);
    if ks.contains(v) {
        let j = choose|j: int| 0 <= j < ks.len() && ks[j] == v;
        lemma_keys_distinct(rows, idx);
        assert forall|p: int| 0 <= p < j implies tb[p].0 != v by {
            assert(tb[p].0 == ks[p]);
        }
        assert(tb[j] == (v, count_of(rows, idx, v)));
        lemma_count_in_table_first_match(tb, j, v);
    } else {
        assert forall|p: int| 0 <= p < tb.len() implies tb[p].0 != v by {
            assert(tb[p].0 == ks[p]);
            assert(ks.contains(ks[p]));
        }
        lemma_count_in_table_absent(tb, v);
    }
}

/// The frequency table that one pass over the dataset builds: each distinct
/// qualifying value of the chosen column, in order of first occurrence, with
/// the number of rows that carry it.
pub struct FrequencyTable {
    entries: Vec<(String, usize)>,
}

impl View for FrequencyTable {
    type V = Seq<(Seq<char>, nat)>;

    closed spec fn view(&self) -> Seq<(Seq<char>, nat)> {
        self.entries@.map(|i: int, e: (String, usize)| (e.0@, e.1 as nat))
    }
}

impl FrequencyTable {
    /// One forward pass: count every nonempty value found at column `idx`,
    /// skipping rows that have no field there or an empty one.
    pub fn count_values(rows: &Vec<Vec<String>>, idx: usize) -> (t: FrequencyTable)
        ensures
            t@ == table_spec(rows.deep_view(), idx as int),
    {
        let ghost all: Seq<Seq<Seq<char>>> = rows.deep_view();
        let mut t = FrequencyTable { entries: Vec::new() };
        assert(t@ =~= table_spec(all.take(0), idx as int));
        let mut i: usize = 0;
        while i < rows.len()
            invariant
                i <= rows.len(),
                all == rows.deep_view(),
                t@ == table_spec(all.take(i as int), idx as int),
            decreases rows.len() - i,
        {
            let ghost prefix = all.take(i as int);
            let ghost row = all[i as int];
            proof {
                assert(all.take(i + 1) =~= prefix.push(row));
            }
            let r = &rows[i];
            if idx < r.len() && !r[idx].as_str().is_empty() {
                let ghost v = row[idx as int];
                assert(row_qualifies(row, idx as int)) by {
                    assert(row[idx as int] == r@[idx as int]@);
                }
                let n = t.entries.len();
                let mut j: usize = 0;
                let mut found: bool = false;
                while !found && j < n
                    invariant
                        idx < r@.len(),
                        v == r@[idx as int]@,
                        n == t.entries.len(),
                        j <= n,
                        forall|p: int| 0 <= p < j ==> t.entries@[p].0@ != v,
                        found ==> j < n && t.entries@[j as int].0@ == v,
                    decreases n - j + (if found {
                        0int
                    } else {
                        1int
                    }),
                {
                    if t.entries[j].0 == r[idx] {
                        found = true;
                    } else {
                        j += 1;
                    }
                }
                let ghost told = t@;
                let ghost ks = keys_in_order(prefix, idx as int);
                if found {
                    proof {
                        assert(told.len() == t.entries@.len());
                        assert(table_spec(prefix, idx as int).len() == ks.len());
                        assert(j < ks.len());
                        assert(told[j as int] == table_spec(prefix, idx as int)[j as int]);
                        assert(told[j as int].0 == ks[j as int]);
                        assert(ks[j as int] == v);
                        assert(ks.contains(v));
                        assert(told[j as int].1 == count_of(prefix, idx as int, v));
                        lemma_count_le_len(prefix, idx as int, v);
                    }
                    let c = t.entries[j].1;
                    t.entries[j] = (r[idx].clone(), c + 1);
                    proof {
                        let newrows = prefix.push(row);
                        let rhs = table_spec(newrows, idx as int);
                        lemma_keys_push(prefix, idx as int, row);
                        lemma_keys_distinct(prefix, idx as int);
                        assert(keys_in_order(newrows, idx as int) == ks);
                        assert(t@.len() == rhs.len());
                        assert forall|p: int| 0 <= p < t@.len() implies t@[p] == rhs[p] by {
                            lemma_count_push(prefix, idx as int, row, ks[p]);
                            assert(rhs[p] == (ks[p], count_of(newrows, idx as int, ks[p])));
                            if p == j {
                                assert(t@[p] == (v, (c + 1) as nat));
                                assert(count_of(newrows, idx as int, v) == count_of(
                                    prefix,
                                    idx as int,
                                    v,
                                ) + 1);
                            } else {
                                assert(ks[p] != v);
                                assert(t@[p] == told[p]);
                                assert(told[p] == (ks[p], count_of(prefix, idx as int, ks[p])));
                                assert(count_of(newrows, idx as int, ks[p]) == count_of(
                                    prefix,
                                    idx as int,
                                    ks[p],
                                ));
                            }
                        }
                        assert(t@ =~= rhs);
                    }
                } else {
                    proof {
                        assert(told.len() == t.entries@.len());
                        assert(table_spec(prefix, idx as int).len() == ks.len());
                        if ks.contains(v) {
                            let p = choose|p: int| 0 <= p < ks.len() && ks[p] == v;
                            assert(told[p] == table_spec(prefix, idx as int)[p]);
                            assert(table_spec(prefix, idx as int)[p].0 == ks[p]);
                            assert(told[p].0 == v);
                            assert(t.entries@[p].0@ == v);
                        }
                        assert(!ks.contains(v));
                        lemma_key_iff_count(prefix, idx as int, v);
                    }
                    t.entries.push((r[idx].clone(), 1));
                    proof {
                        let newrows = prefix.push(row);
                        let rhs = table_spec(newrows, idx as int);
                        lemma_keys_push(prefix, idx as int, row);
                        assert(keys_in_order(newrows, idx as int) == ks.push(v));
                        assert(t@.len() == rhs.len());
                        assert forall|p: int| 0 <= p < t@.len() implies t@[p] == rhs[p] by {
                            lemma_count_push(prefix, idx as int, row, ks.push(v)[p]);
                            if p < ks.len() {
                                assert(ks.push(v)[p] == ks[p]);
                                assert(ks[p] != v);
                                assert(t@[p] == told[p]);
                                assert(told[p] == (ks[p], count_of(prefix, idx as int, ks[p])));
                            } else {
                                assert(ks.push(v)[p] == v);
                                assert(count_of(prefix, idx as int, v) == 0);
                                assert(t@[p] == (v, 1nat));
                            }
                        }
                        assert(t@ =~= rhs);
                    }
                }
            } else {
                proof {
                    assert(!row_qualifies(row, idx as int)) by {
                        if idx < r.len() {
                            assert(row[idx as int] == r@[idx as int]@);
                        }
                    }
                    let ks = keys_in_order(prefix, idx as int);
                    let newrows = prefix.push(row);
                    lemma_keys_push(prefix, idx as int, row);
                    assert(keys_in_order(newrows, idx as int) == ks);
                    assert forall|p: int|
                        0 <= p < t@.len() implies t@[p] == table_spec(newrows, idx as int)[p] by {
                        lemma_count_push(prefix, idx as int, row, ks[p]);
                    }
                    assert(t@ =~= table_spec(newrows, idx as int));
                }
            }
            i += 1;
        }
        proof {
            assert(all.take(rows.len() as int) =~= all);
        }
        t
    }

    /// The count recorded for `value`: how many rows carried it, zero where
    /// none did.
    pub fn count_for(&self, value: &str) -> (c: usize)
        ensures
            c as nat == count_in_table(self@, value@),
    {
        let target: String = value.to_owned();
        let mut i: usize = 0;
        while i < self.entries.len()
            invariant
                i <= self.entries.len(),
                target@ == value@,
                forall|p: int| 0 <= p < i ==> self@[p].0 != value@,
            decreases self.entries.len() - i,
        {
            if self.entries[i].0 == target {
                proof {
                    lemma_count_in_table_first_match(self@, i as int, value@);
                }
                return self.entries[i].1;
            }
            i += 1;
        }
        proof {
            lemma_count_in_table_absent(self@, value@);
        }
        0
    }

    /// The most frequent value and its count: the first entry that no later
    /// entry strictly exceeds. Nothing comes from an empty table.
    pub fn select_mode(&self) -> (r: Option<(String, usize)>)
        ensures
            match r {
                Some(p) => mode_of(self@) == Some((p.0@, p.1 as nat)),
                None => mode_of(self@) is None && self@.len() == 0,
            },
    {
        if self.entries.len() == 0 {
            return None;
        }
        let mut best: usize = 0;
        let mut i: usize = 1;
        proof {
            let s1 = self@.take(1);
            assert(s1.drop_first() =~= Seq::<(Seq<char>, nat)>::empty());
            assert(mode_of(s1.drop_first()) is None);
            assert(s1[0] == (self.entries@[0].0@, self.entries@[0].1 as nat));
            assert(mode_of(s1) == Some(s1[0]));
        }
        while i < self.entries.len()
            invariant
                1 <= i <= self.entries.len(),
                best < i,
                mode_of(self@.take(i as int)) == Some(
                    (self.entries@[best as int].0@, self.entries@[best as int].1 as nat),
                ),
            decreases self.entries.len() - i,
        {
            proof {
                assert(self@.take(i + 1) =~= self@.take(i as int).push(self@[i as int]));
                lemma_mode_push(self@.take(i as int), self@[i as int]);
            }
            if self.entries[i].1 > self.entries[best].1 {
                best = i;
            }
            i += 1;
        }
        proof {
            assert(self@.take(self.entries@.len() as int) =~= self@);
        }
        Some((self.entries[best].0.clone(), self.entries[best].1))
    }
}

} // verus!
