use vstd::prelude::*;

use crate::attributes::{is_id_key, pairs_view, word_id_suffix};
use crate::categorical::{blanks, strings_view, Categorical};
use crate::error::ParseError;
use crate::key_index::KeyIndex;
use crate::text::range_ends_with;
use crate::text::to_chars;

verus! {

/// Named columns of strings, in the order in which their keys first came.
pub type ColumnsModel = Seq<(Seq<char>, Seq<Seq<char>>)>;

/// The contents of a feature table.
pub struct TableModel {
    pub seqname: Seq<Seq<char>>,
    pub start: Seq<u64>,
    pub end: Seq<u64>,
    pub strand: Seq<i8>,
    pub cat: ColumnsModel,
    pub vec: ColumnsModel,
    pub count: nat,
}

/// The keys of some columns, in order.
pub open spec fn column_keys(cols: ColumnsModel) -> Seq<Seq<char>> {
    cols.map_values(|c: (Seq<char>, Seq<Seq<char>>)| c.0)
}

/// Whether one of `cols` is named `key`.
pub open spec fn has_column(cols: ColumnsModel, key: Seq<char>) -> bool {
    exists|i: int| 0 <= i < cols.len() && cols[i].0 == key
}

/// The position of the column named `key` (where there is one).
pub open spec fn column_index(cols: ColumnsModel, key: Seq<char>) -> int {
    choose|i: int| 0 <= i < cols.len() && cols[i].0 == key
}

/// `cols` with `value` appended to the column `key`. A column that is new
/// holds an empty string for each of the `count` earlier rows. `None` where
/// the column, or the number of columns, would leave the `u32` range.
pub open spec fn add_value(cols: ColumnsModel, key: Seq<char>, value: Seq<char>, count: nat) -> Option<
    ColumnsModel,
> {
    if has_column(cols, key) {
        let i = column_index(cols, key);
        if cols[i].1.len() >= u32::MAX {
            None
        } else {
            Some(cols.update(i, (key, cols[i].1.push(value))))
        }
    } else if cols.len() >= u32::MAX {
        None
    } else {
        Some(cols.push((key, blanks(count).push(value))))
    }
}

/// `t` with one attribute pair added: to an identifier column where the key
/// ends in `_id`, else to a categorical column.
pub open spec fn add_pair(t: TableModel, key: Seq<char>, value: Seq<char>) -> Option<TableModel> {
    if is_id_key(key) {
        match add_value(t.vec, key, value, t.count) {
            Some(c) => Some(
                TableModel {
                    seqname: t.seqname,
                    start: t.start,
                    end: t.end,
                    strand: t.strand,
                    cat: t.cat,
                    vec: c,
                    count: t.count,
                },
            ),
            None => None,
        }
    } else {
        match add_value(t.cat, key, value, t.count) {
            Some(c) => Some(
                TableModel {
                    seqname: t.seqname,
                    start: t.start,
                    end: t.end,
                    strand: t.strand,
                    cat: c,
                    vec: t.vec,
                    count: t.count,
                },
            ),
            None => None,
        }
    }
}

/// `t` with the pairs `pairs[j..]` added in order.
pub open spec fn add_pairs(t: TableModel, pairs: Seq<(Seq<char>, Seq<char>)>, j: int) -> Option<
    TableModel,
>
    decreases pairs.len() - j,
{
    if j < 0 || j >= pairs.len() {
        Some(t)
    } else {
        match add_pair(t, pairs[j].0, pairs[j].1) {
            Some(t2) => add_pairs(t2, pairs, j + 1),
            None => None,
        }
    }
}

/// `cols` with an empty string appended to each column shorter than `n`.
pub open spec fn pad(cols: ColumnsModel, n: nat) -> ColumnsModel {
    cols.map_values(
        |c: (Seq<char>, Seq<Seq<char>>)|
            if c.1.len() < n {
                (c.0, c.1.push(Seq::<char>::empty()))
            } else {
                c
            },
    )
}

/// `t` with one more row: the fixed fields, then the attribute pairs, then
/// an empty string in every attribute column that the row left out. `None`
/// where the table would leave the `u32` range.
pub open spec fn add_row(
    t: TableModel,
    seqname: Seq<char>,
    start: u64,
    end: u64,
    strand: i8,
    pairs: Seq<(Seq<char>, Seq<char>)>,
) -> Option<TableModel> {
    if t.count + 2 >= u32::MAX {
        None
    } else {
        let t1 = TableModel {
            seqname: t.seqname.push(seqname),
            start: t.start.push(start),
            end: t.end.push(end),
            strand: t.strand.push(strand),
            cat: t.cat,
            vec: t.vec,
            count: t.count,
        };
        match add_pairs(t1, pairs, 0) {
            Some(t2) => Some(
                TableModel {
                    seqname: t2.seqname,
                    start: t2.start,
                    end: t2.end,
                    strand: t2.strand,
                    cat: pad(t2.cat, t.count + 1),
                    vec: pad(t2.vec, t.count + 1),
                    count: t.count + 1,
                },
            ),
            None => None,
        }
    }
}

/// A table without rows.
pub open spec fn empty_table() -> TableModel {
    TableModel {
        seqname: Seq::empty(),
        start: Seq::empty(),
        end: Seq::empty(),
        strand: Seq::empty(),
        cat: Seq::empty(),
        vec: Seq::empty(),
        count: 0,
    }
}

/// Whether `idx` finds each of `keys`, which are distinct, at its position.
pub open spec fn index_matches(idx: Map<Seq<char>, u32>, keys: Seq<Seq<char>>) -> bool {
    &&& keys.no_duplicates()
    &&& keys.len() <= u32::MAX
    &&& forall|k: Seq<char>| #[trigger] idx.contains_key(k) <==> keys.contains(k)
    &&& forall|i: int| 0 <= i < keys.len() ==> idx[#[trigger] keys[i]] == i as u32
}

/// The rows of one feature type, column by column.
pub struct GTFEntrys {
    pub seqname: Categorical,
    pub start: Vec<u64>,
    pub end: Vec<u64>,
    pub strand: Vec<i8>,
    /// Dictionary-encoded attribute columns, with their keys.
    pub cat_attributes: Vec<(String, Categorical)>,
    pub cat_index: KeyIndex,
    /// Identifier attribute columns (keys ending in `_id`), with their keys.
    pub vec_attributes: Vec<(String, Vec<String>)>,
    pub vec_index: KeyIndex,
    /// Number of rows.
    pub count: u32,
}

/// Categorical columns as named columns of strings.
pub open spec fn cat_columns(v: Seq<(String, Categorical)>) -> ColumnsModel {
    v.map_values(|c: (String, Categorical)| (c.0@, c.1@))
}

/// String columns as named columns of strings.
pub open spec fn vec_columns(v: Seq<(String, Vec<String>)>) -> ColumnsModel {
    v.map_values(|c: (String, Vec<String>)| (c.0@, strings_view(c.1@)))
}

impl View for GTFEntrys {
    type V = TableModel;

    open spec fn view(&self) -> TableModel {
        TableModel {
            seqname: self.seqname@,
            start: self.start@,
            end: self.end@,
            strand: self.strand@,
            cat: cat_columns(self.cat_attributes@),
            vec: vec_columns(self.vec_attributes@),
            count: self.count as nat,
        }
    }
}

/// `n` empty strings, then `value`.
fn vector_new_empty_push(n: u32, value: String) -> (r: Vec<String>)
    ensures
        strings_view(r@) == blanks(n as nat).push(value@),
{
    let mut r: Vec<String> = Vec::new();
    let mut i: u32 = 0;
    while i < n
        invariant
            0 <= i <= n,
            r@.len() == i,
            forall|j: int| 0 <= j < i ==> (#[trigger] r@[j])@ == Seq::<char>::empty(),
        decreases n - i,
    {
        r.push(String::new());
        i = i + 1;
    }
    assert(strings_view(r@) =~= blanks(n as nat));
    r.push(value);
    assert(strings_view(r@) =~= blanks(n as nat).push(value@));
    r
}

/// A key that is new to `keys` keeps the index right once it is added at the end.
pub(crate) proof fn lemma_index_push(idx: Map<Seq<char>, u32>, keys: Seq<Seq<char>>, key: Seq<char>)
    requires
        index_matches(idx, keys),
        !keys.contains(key),
        keys.len() < u32::MAX,
    ensures
        index_matches(idx.insert(key, keys.len() as u32), keys.push(key)),
{
    let nk = keys.push(key);
    let ni = idx.insert(key, keys.len() as u32);
    assert forall|i: int, j: int| 0 <= i < nk.len() && 0 <= j < nk.len() && i != j implies nk[i]
        != nk[j] by {
        if i < keys.len() && j < keys.len() {
        } else if i < keys.len() {
            assert(keys.contains(nk[i]));
        } else {
            assert(keys.contains(nk[j]));
        }
    }
    assert forall|k: Seq<char>| #[trigger] ni.contains_key(k) <==> nk.contains(k) by {
        if ni.contains_key(k) && k != key {
            assert(keys.contains(k));
            let j = choose|j: int| 0 <= j < keys.len() && keys[j] == k;
            assert(nk[j] == k);
        }
        if nk.contains(k) && k != key {
            let j = choose|j: int| 0 <= j < nk.len() && nk[j] == k;
            assert(j < keys.len());
            assert(keys[j] == k);
        }
        if k == key {
            assert(nk[keys.len() as int] == k);
        }
    }
    assert forall|i: int| 0 <= i < nk.len() implies ni[#[trigger] nk[i]] == i as u32 by {
        if i < keys.len() {
            assert(nk[i] == keys[i]);
            assert(keys.contains(keys[i]));
        }
    }
}

impl GTFEntrys {
    /// Everything but the row count: each column well formed, and each index
    /// right for its columns.
    pub open spec fn wf_columns(&self) -> bool {
        &&& self.seqname.wf()
        &&& forall|i: int|
            0 <= i < self.cat_attributes@.len() ==> (#[trigger] self.cat_attributes@[i]).1.wf()
        &&& index_matches(self.cat_index@, column_keys(cat_columns(self.cat_attributes@)))
        &&& index_matches(self.vec_index@, column_keys(vec_columns(self.vec_attributes@)))
    }

    /// The table is well formed: the fixed columns hold one entry per row.
    pub open spec fn wf(&self) -> bool {
        &&& self.wf_columns()
        &&& self.count < u32::MAX
        &&& self.seqname@.len() == self.count
        &&& self.start@.len() == self.count
        &&& self.end@.len() == self.count
        &&& self.strand@.len() == self.count
    }

    /// A table without rows.
    pub fn new() -> (r: GTFEntrys)
        ensures
            r.wf(),
            r@ == empty_table(),
    {
        let r = GTFEntrys {
            seqname: Categorical::new(),
            start: Vec::new(),
            end: Vec::new(),
            strand: Vec::new(),
            cat_attributes: Vec::new(),
            cat_index: KeyIndex::new(),
            vec_attributes: Vec::new(),
            vec_index: KeyIndex::new(),
            count: 0,
        };
        proof {
            assert(column_keys(cat_columns(r.cat_attributes@)) =~= Seq::<Seq<char>>::empty());
            assert(column_keys(vec_columns(r.vec_attributes@)) =~= Seq::<Seq<char>>::empty());
            assert(r@.cat =~= Seq::<(Seq<char>, Seq<Seq<char>>)>::empty());
            assert(r@.vec =~= Seq::<(Seq<char>, Seq<Seq<char>>)>::empty());
            assert forall|k: Seq<char>| #[trigger] r.cat_index@.contains_key(k) implies false by {
                assert(r.cat_index@.dom().contains(k));
            }
            assert forall|k: Seq<char>| #[trigger] r.vec_index@.contains_key(k) implies false by {
                assert(r.vec_index@.dom().contains(k));
            }
        }
        r
    }

    /// Appends `value` to the identifier column `key`, creating the column
    /// where it is new; `false` where that would leave the `u32` range.
    fn add_vec_value(&mut self, key: &String, value: &String) -> (ok: bool)
        requires
            old(self).wf_columns(),
        ensures
            final(self).wf_columns(),
            match add_value(old(self)@.vec, key@, value@, old(self).count as nat) {
                Some(c) => ok && final(self)@ == (TableModel { vec: c, ..old(self)@ }),
                None => !ok,
            },
    {
        let ghost cols = self@.vec;
        let ghost keys = column_keys(cols);
        match self.vec_index.get(key.as_str()) {
            Some(ix) => {
                let i = ix as usize;
                proof {
                    let j = choose|j: int| 0 <= j < keys.len() && keys[j] == key@;
                    assert(self.vec_index@[keys[j]] == j as u32);
                    assert(i == j);
                    assert(cols[j].0 == key@);
                    assert(has_column(cols, key@));
                    let c = column_index(cols, key@);
                    assert(keys[c] == key@);
                    assert(c == j);
                }
                if self.vec_attributes[i].1.len() >= 4294967295 {
                    return false;
                }
                let ghost old_col = self.vec_attributes@[i as int];
                self.vec_attributes[i].1.push(value.clone());
                proof {
                    let new_cols = cols.update(i as int, (key@, cols[i as int].1.push(value@)));
                    assert(strings_view(self.vec_attributes@[i as int].1@) =~= strings_view(
                        old_col.1@,
                    ).push(value@));
                    assert(vec_columns(self.vec_attributes@) =~= new_cols);
                    assert(column_keys(new_cols) =~= keys);
                }
                true
            },
            None => {
                proof {
                    if has_column(cols, key@) {
                        let j = choose|j: int| 0 <= j < cols.len() && cols[j].0 == key@;
                        assert(keys[j] == key@);
                    }
                }
                if self.vec_attributes.len() >= 4294967295 {
                    return false;
                }
                let n = self.vec_attributes.len() as u32;
                let col = vector_new_empty_push(self.count, value.clone());
                proof {
                    lemma_index_push(self.vec_index@, keys, key@);
                }
                self.vec_index.insert(key.clone(), n);
                self.vec_attributes.push((key.clone(), col));
                proof {
                    assert(vec_columns(self.vec_attributes@) =~= cols.push(
                        (key@, blanks(self.count as nat).push(value@)),
                    ));
                    assert(column_keys(vec_columns(self.vec_attributes@)) =~= keys.push(key@));
                }
                true
            },
        }
    }

    /// Appends `value` to the categorical column `key`, creating the column
    /// where it is new; `false` where that would leave the `u32` range.
    fn add_cat_value(&mut self, key: &String, value: &String) -> (ok: bool)
        requires
            old(self).wf_columns(),
            old(self).count + 1 < u32::MAX,
        ensures
            final(self).wf_columns(),
            match add_value(old(self)@.cat, key@, value@, old(self).count as nat) {
                Some(c) => ok && final(self)@ == (TableModel { cat: c, ..old(self)@ }),
                None => !ok,
            },
    {
        let ghost cols = self@.cat;
        let ghost keys = column_keys(cols);
        match self.cat_index.get(key.as_str()) {
            Some(ix) => {
                let i = ix as usize;
                proof {
                    let j = choose|j: int| 0 <= j < keys.len() && keys[j] == key@;
                    assert(self.cat_index@[keys[j]] == j as u32);
                    assert(i == j);
                    assert(cols[j].0 == key@);
                    assert(has_column(cols, key@));
                    let c = column_index(cols, key@);
                    assert(keys[c] == key@);
                    assert(c == j);
                }
                if self.cat_attributes[i].1.len() >= 4294967295 {
                    return false;
                }
                let ghost old_entries = self.cat_attributes@;
                assert(old_entries[i as int].1.wf());
                self.cat_attributes[i].1.push(value.as_str());
                proof {
                    let new_cols = cols.update(i as int, (key@, cols[i as int].1.push(value@)));
                    assert(vec_columns(self.vec_attributes@) == self@.vec);
                    assert(cat_columns(self.cat_attributes@) =~= new_cols);
                    assert(column_keys(new_cols) =~= keys);
                    assert forall|m: int| 0 <= m < self.cat_attributes@.len() implies (
                    #[trigger] self.cat_attributes@[m]).1.wf() by {
                        if m != i {
                            assert(self.cat_attributes@[m] == old_entries[m]);
                        }
                    }
                }
                true
            },
            None => {
                proof {
                    if has_column(cols, key@) {
                        let j = choose|j: int| 0 <= j < cols.len() && cols[j].0 == key@;
                        assert(keys[j] == key@);
                    }
                }
                if self.cat_attributes.len() >= 4294967295 {
                    return false;
                }
                let n = self.cat_attributes.len() as u32;
                let col = Categorical::new_empty_push(self.count, value.as_str());
                proof {
                    lemma_index_push(self.cat_index@, keys, key@);
                }
                let ghost old_entries = self.cat_attributes@;
                self.cat_index.insert(key.clone(), n);
                self.cat_attributes.push((key.clone(), col));
                proof {
                    assert(cat_columns(self.cat_attributes@) =~= cols.push(
                        (key@, blanks(self.count as nat).push(value@)),
                    ));
                    assert(column_keys(cat_columns(self.cat_attributes@)) =~= keys.push(key@));
                    assert forall|m: int| 0 <= m < self.cat_attributes@.len() implies (
                    #[trigger] self.cat_attributes@[m]).1.wf() by {
                        if m < old_entries.len() {
                            assert(self.cat_attributes@[m] == old_entries[m]);
                        }
                    }
                }
                true
            },
        }
    }

    /// Appends an empty string to each categorical column shorter than `n`.
    fn pad_cat_columns(&mut self, n: u32)
        requires
            old(self).wf_columns(),
            n < u32::MAX,
        ensures
            final(self).wf_columns(),
            final(self)@ == (TableModel { cat: pad(old(self)@.cat, n as nat), ..old(self)@ }),
    {
        let ghost before = self@.cat;
        let ghost entries = self.cat_attributes@;
        let mut j: usize = 0;
        while j < self.cat_attributes.len()
            invariant
                0 <= j <= self.cat_attributes@.len(),
                self.cat_attributes@.len() == entries.len(),
                n < u32::MAX,
                self.seqname == old(self).seqname,
                self.start == old(self).start,
                self.end == old(self).end,
                self.strand == old(self).strand,
                self.count == old(self).count,
                self.vec_attributes == old(self).vec_attributes,
                self.cat_index == old(self).cat_index,
                self.vec_index == old(self).vec_index,
                before == cat_columns(entries),
                old(self).wf_columns(),
                entries == old(self).cat_attributes@,
                forall|m: int| 0 <= m < self.cat_attributes@.len() ==> (#[trigger] self.cat_attributes@[m]).1.wf(),
                forall|m: int| 0 <= m < self.cat_attributes@.len() ==> (#[trigger] self.cat_attributes@[m]).0 == entries[m].0,
                forall|m: int| 0 <= m < j ==> (#[trigger] cat_columns(self.cat_attributes@)[m]) == pad(before, n as nat)[m],
                forall|m: int| j <= m < self.cat_attributes@.len() ==> (#[trigger] self.cat_attributes@[m]) == entries[m],
            decreases entries.len() - j,
        {
            if self.cat_attributes[j].1.len() < n as usize {
                let ghost prev = self.cat_attributes@;
                assert(prev[j as int] == entries[j as int]);
                self.cat_attributes[j].1.push("");
                proof {
                    reveal_strlit("");
                    assert forall|m: int| 0 <= m < self.cat_attributes@.len() implies (
                    #[trigger] self.cat_attributes@[m]).1.wf() by {
                        if m != j {
                            assert(self.cat_attributes@[m] == prev[m]);
                        }
                    }
                    assert forall|m: int| 0 <= m < self.cat_attributes@.len() implies (
                    #[trigger] self.cat_attributes@[m]).0 == entries[m].0 by {
                        if m != j {
                            assert(self.cat_attributes@[m] == prev[m]);
                        }
                    }
                    assert forall|m: int| 0 <= m < j + 1 implies (#[trigger] cat_columns(
                        self.cat_attributes@,
                    )[m]) == pad(before, n as nat)[m] by {
                        if m != j {
                            assert(self.cat_attributes@[m] == prev[m]);
                            assert(cat_columns(prev)[m] == pad(before, n as nat)[m]);
                        } else {
                            assert(""@ =~= Seq::<char>::empty());
                        }
                    }
                    assert forall|m: int| j + 1 <= m < self.cat_attributes@.len() implies (
                    #[trigger] self.cat_attributes@[m]) == entries[m] by {
                        assert(self.cat_attributes@[m] == prev[m]);
                    }
                }
            } else {
                proof {
                    assert forall|m: int| 0 <= m < j + 1 implies (#[trigger] cat_columns(
                        self.cat_attributes@,
                    )[m]) == pad(before, n as nat)[m] by {
                        if m == j {
                            assert(self.cat_attributes@[m] == entries[m]);
                        }
                    }
                }
            }
            j = j + 1;
        }
        proof {
            assert(cat_columns(self.cat_attributes@) =~= pad(before, n as nat));
            assert(column_keys(cat_columns(self.cat_attributes@)) =~= column_keys(before));
        }
    }

    /// Appends an empty string to each identifier column shorter than `n`.
    fn pad_vec_columns(&mut self, n: u32)
        requires
            old(self).wf_columns(),
        ensures
            final(self).wf_columns(),
            final(self)@ == (TableModel { vec: pad(old(self)@.vec, n as nat), ..old(self)@ }),
    {
        let ghost before = self@.vec;
        let ghost entries = self.vec_attributes@;
        let mut j: usize = 0;
        while j < self.vec_attributes.len()
            invariant
                0 <= j <= self.vec_attributes@.len(),
                self.vec_attributes@.len() == entries.len(),
                self.seqname == old(self).seqname,
                self.start == old(self).start,
                self.end == old(self).end,
                self.strand == old(self).strand,
                self.count == old(self).count,
                self.cat_attributes == old(self).cat_attributes,
                self.cat_index == old(self).cat_index,
                self.vec_index == old(self).vec_index,
                before == vec_columns(entries),
                old(self).wf_columns(),
                entries == old(self).vec_attributes@,
                forall|m: int| 0 <= m < self.vec_attributes@.len() ==> (#[trigger] self.vec_attributes@[m]).0 == entries[m].0,
                forall|m: int| 0 <= m < j ==> (#[trigger] vec_columns(self.vec_attributes@)[m]) == pad(before, n as nat)[m],
                forall|m: int| j <= m < self.vec_attributes@.len() ==> (#[trigger] self.vec_attributes@[m]) == entries[m],
            decreases entries.len() - j,
        {
            if self.vec_attributes[j].1.len() < n as usize {
                let ghost prev = self.vec_attributes@;
                assert(prev[j as int] == entries[j as int]);
                self.vec_attributes[j].1.push(String::new());
                proof {
                    assert forall|m: int| 0 <= m < self.vec_attributes@.len() implies (
                    #[trigger] self.vec_attributes@[m]).0 == entries[m].0 by {
                        if m != j {
                            assert(self.vec_attributes@[m] == prev[m]);
                        }
                    }
                    assert forall|m: int| 0 <= m < j + 1 implies (#[trigger] vec_columns(
                        self.vec_attributes@,
                    )[m]) == pad(before, n as nat)[m] by {
                        if m != j {
                            assert(self.vec_attributes@[m] == prev[m]);
                            assert(vec_columns(prev)[m] == pad(before, n as nat)[m]);
                        } else {
                            assert(strings_view(self.vec_attributes@[m].1@) =~= strings_view(
                                prev[m].1@,
                            ).push(Seq::<char>::empty()));
                        }
                    }
                    assert forall|m: int| j + 1 <= m < self.vec_attributes@.len() implies (
                    #[trigger] self.vec_attributes@[m]) == entries[m] by {
                        assert(self.vec_attributes@[m] == prev[m]);
                    }
                }
            } else {
                proof {
                    assert forall|m: int| 0 <= m < j + 1 implies (#[trigger] vec_columns(
                        self.vec_attributes@,
                    )[m]) == pad(before, n as nat)[m] by {
                        if m == j {
                            assert(self.vec_attributes@[m] == entries[m]);
                        }
                    }
                }
            }
            j = j + 1;
        }
        proof {
            assert(vec_columns(self.vec_attributes@) =~= pad(before, n as nat));
            assert(column_keys(vec_columns(self.vec_attributes@)) =~= column_keys(before));
        }
    }

    /// Adds one row: `seqname`, `start`, `end` and `strand` to the fixed
    /// columns, each attribute pair to its column (a new column holds an
    /// empty string for each earlier row), then an empty string to each
    /// attribute column that the row left out. Fails only where the table
    /// would leave the `u32` range of its counts and codes.
    pub fn push_row(
        &mut self,
        seqname: &str,
        start: u64,
        end: u64,
        strand: i8,
        pairs: &Vec<(String, String)>,
    ) -> (r: Result<(), ParseError>)
        requires
            old(self).wf(),
        ensures
            match add_row(old(self)@, seqname@, start, end, strand, pairs_view(pairs@)) {
                Some(t) => r is Ok && final(self).wf() && final(self)@ == t,
                None => r == Err::<(), ParseError>(ParseError::TooManyValues),
            },
    {
        if self.count >= 4294967293 {
            return Err(ParseError::TooManyValues);
        }
        self.seqname.push(seqname);
        self.start.push(start);
        self.end.push(end);
        self.strand.push(strand);
        let ghost t1 = self@;
        let ghost ps = pairs_view(pairs@);
        assert(t1 == (TableModel {
            seqname: old(self)@.seqname.push(seqname@),
            start: old(self)@.start.push(start),
            end: old(self)@.end.push(end),
            strand: old(self)@.strand.push(strand),
            cat: old(self)@.cat,
            vec: old(self)@.vec,
            count: old(self)@.count,
        }));
        let ghost total = add_pairs(t1, ps, 0);
        let id_suffix = vec!['_', 'i', 'd'];
        assert(id_suffix@ =~= word_id_suffix());
        let mut j: usize = 0;
        while j < pairs.len()
            invariant
                0 <= j <= pairs@.len(),
                ps == pairs_view(pairs@),
                id_suffix@ == word_id_suffix(),
                self.wf_columns(),
                self.count == old(self).count,
                self.count + 2 < u32::MAX,
                self.seqname@.len() == self.count + 1,
                self.start@.len() == self.count + 1,
                self.end@.len() == self.count + 1,
                self.strand@.len() == self.count + 1,
                total == add_pairs(self@, ps, j as int),
                total == add_pairs(t1, ps, 0),
                t1 == (TableModel {
                    seqname: old(self)@.seqname.push(seqname@),
                    start: old(self)@.start.push(start),
                    end: old(self)@.end.push(end),
                    strand: old(self)@.strand.push(strand),
                    cat: old(self)@.cat,
                    vec: old(self)@.vec,
                    count: old(self)@.count,
                }),
            decreases pairs@.len() - j,
        {
            let key = &pairs[j].0;
            let value = &pairs[j].1;
            assert(ps[j as int] == (key@, value@));
            let kc = to_chars(key.as_str());
            let is_id = range_ends_with(&kc, 0, kc.len(), &id_suffix);
            assert(kc@.subrange(0, kc@.len() as int) =~= kc@);
            let ghost pre = self@;
            let ok = if is_id {
                self.add_vec_value(key, value)
            } else {
                self.add_cat_value(key, value)
            };
            if !ok {
                assert(add_pair(pre, key@, value@) is None);
                assert(add_pairs(pre, ps, j as int) is None);
                return Err(ParseError::TooManyValues);
            }
            j = j + 1;
        }
        self.count = self.count + 1;
        self.pad_cat_columns(self.count);
        self.pad_vec_columns(self.count);
        Ok(())
    }

    /// The categorical column `key`, if the table has one.
    pub fn cat_attribute(&self, key: &str) -> (r: Option<&Categorical>)
        requires
            self.wf_columns(),
        ensures
            match r {
                Some(c) => has_column(self@.cat, key@) && c@ == self@.cat[column_index(
                    self@.cat,
                    key@,
                )].1,
                None => !has_column(self@.cat, key@),
            },
    {
        let ghost cols = self@.cat;
        let ghost keys = column_keys(cols);
        match self.cat_index.get(key) {
            Some(ix) => {
                proof {
                    let j = choose|j: int| 0 <= j < keys.len() && keys[j] == key@;
                    assert(self.cat_index@[keys[j]] == j as u32);
                    assert(cols[j].0 == key@);
                    let c = column_index(cols, key@);
                    assert(keys[c] == key@);
                }
                Some(&self.cat_attributes[ix as usize].1)
            },
            None => {
                proof {
                    if has_column(cols, key@) {
                        let j = choose|j: int| 0 <= j < cols.len() && cols[j].0 == key@;
                        assert(keys[j] == key@);
                    }
                }
                None
            },
        }
    }

    /// The identifier column `key`, if the table has one.
    pub fn vec_attribute(&self, key: &str) -> (r: Option<&Vec<String>>)
        requires
            self.wf_columns(),
        ensures
            match r {
                Some(c) => has_column(self@.vec, key@) && strings_view(c@) == self@.vec[column_index(
                    self@.vec,
                    key@,
                )].1,
                None => !has_column(self@.vec, key@),
            },
    {
        let ghost cols = self@.vec;
        let ghost keys = column_keys(cols);
        match self.vec_index.get(key) {
            Some(ix) => {
                proof {
                    let j = choose|j: int| 0 <= j < keys.len() && keys[j] == key@;
                    assert(self.vec_index@[keys[j]] == j as u32);
                    assert(cols[j].0 == key@);
                    let c = column_index(cols, key@);
                    assert(keys[c] == key@);
                }
                Some(&self.vec_attributes[ix as usize].1)
            },
            None => {
                proof {
                    if has_column(cols, key@) {
                        let j = choose|j: int| 0 <= j < cols.len() && cols[j].0 == key@;
                        assert(keys[j] == key@);
                    }
                }
                None
            },
        }
    }

    /// The number of rows.
    pub fn len(&self) -> (r: usize)
        ensures
            r == self@.count,
    {
        self.count as usize
    }
}

/// Whether the pairs have distinct keys.
pub open spec fn distinct_keys(pairs: Seq<(Seq<char>, Seq<char>)>) -> bool {
    forall|a: int, b: int|
        0 <= a < pairs.len() && 0 <= b < pairs.len() && a != b ==> pairs[a].0 != pairs[b].0
}

/// Whether every column of `t`, fixed or attribute, holds one entry per row.
pub open spec fn aligned(t: TableModel) -> bool {
    &&& t.seqname.len() == t.count
    &&& t.start.len() == t.count
    &&& t.end.len() == t.count
    &&& t.strand.len() == t.count
    &&& forall|x: int| 0 <= x < t.cat.len() ==> (#[trigger] t.cat[x]).1.len() == t.count
    &&& forall|x: int| 0 <= x < t.vec.len() ==> (#[trigger] t.vec[x]).1.len() == t.count
}

/// Every column holds `c` or `c + 1` entries, and one holds `c + 1` only
/// where its key is among the keys of `pairs[..j]`.
spec fn columns_within(cols: ColumnsModel, c: nat, pairs: Seq<(Seq<char>, Seq<char>)>, j: int) -> bool {
    forall|x: int|
        0 <= x < cols.len() ==> c <= (#[trigger] cols[x]).1.len() <= c + 1 && (cols[x].1.len()
            == c + 1 ==> exists|m: int| 0 <= m < j && pairs[m].0 == cols[x].0)
}

proof fn lemma_add_value_within(
    cols: ColumnsModel,
    value: Seq<char>,
    c: nat,
    pairs: Seq<(Seq<char>, Seq<char>)>,
    j: int,
)
    requires
        0 <= j < pairs.len(),
        distinct_keys(pairs),
        columns_within(cols, c, pairs, j),
        add_value(cols, pairs[j].0, value, c) is Some,
    ensures
        columns_within(add_value(cols, pairs[j].0, value, c)->0, c, pairs, j + 1),
{
    let key = pairs[j].0;
    let r = add_value(cols, key, value, c)->0;
    if has_column(cols, key) {
        let i = column_index(cols, key);
        if cols[i].1.len() == c + 1 {
            let m = choose|m: int| 0 <= m < j && pairs[m].0 == cols[i].0;
            assert(pairs[m].0 == pairs[j].0);
        }
        assert forall|x: int| 0 <= x < r.len() implies c <= (#[trigger] r[x]).1.len() <= c + 1 && (
        r[x].1.len() == c + 1 ==> exists|m: int| 0 <= m < j + 1 && pairs[m].0 == r[x].0) by {
            if x == i {
                assert(pairs[j].0 == r[x].0);
            } else {
                assert(r[x] == cols[x]);
                if cols[x].1.len() == c + 1 {
                    let m = choose|m: int| 0 <= m < j && pairs[m].0 == cols[x].0;
                    assert(pairs[m].0 == r[x].0);
                }
            }
        }
    } else {
        assert forall|x: int| 0 <= x < r.len() implies c <= (#[trigger] r[x]).1.len() <= c + 1 && (
        r[x].1.len() == c + 1 ==> exists|m: int| 0 <= m < j + 1 && pairs[m].0 == r[x].0) by {
            if x == cols.len() {
                assert(pairs[j].0 == r[x].0);
            } else {
                assert(r[x] == cols[x]);
                if cols[x].1.len() == c + 1 {
                    let m = choose|m: int| 0 <= m < j && pairs[m].0 == cols[x].0;
                    assert(pairs[m].0 == r[x].0);
                }
            }
        }
    }
}

proof fn lemma_add_pairs_within(t: TableModel, pairs: Seq<(Seq<char>, Seq<char>)>, j: int, c: nat)
    requires
        0 <= j <= pairs.len(),
        distinct_keys(pairs),
        t.count == c,
        columns_within(t.cat, c, pairs, j),
        columns_within(t.vec, c, pairs, j),
        add_pairs(t, pairs, j) is Some,
    ensures
        ({
            let t2 = add_pairs(t, pairs, j)->0;
            &&& t2.count == c
            &&& t2.seqname == t.seqname
            &&& t2.start == t.start
            &&& t2.end == t.end
            &&& t2.strand == t.strand
            &&& columns_within(t2.cat, c, pairs, pairs.len() as int)
            &&& columns_within(t2.vec, c, pairs, pairs.len() as int)
        }),
    decreases pairs.len() - j,
{
    if j < pairs.len() {
        let key = pairs[j].0;
        let t2 = add_pair(t, key, pairs[j].1)->0;
        if is_id_key(key) {
            lemma_add_value_within(t.vec, pairs[j].1, c, pairs, j);
            assert forall|x: int| 0 <= x < t2.cat.len() implies c <= (#[trigger] t2.cat[x]).1.len()
                <= c + 1 && (t2.cat[x].1.len() == c + 1 ==> exists|m: int|
                0 <= m < j + 1 && pairs[m].0 == t2.cat[x].0) by {
                if t2.cat[x].1.len() == c + 1 {
                    let m = choose|m: int| 0 <= m < j && pairs[m].0 == t.cat[x].0;
                }
            }
        } else {
            lemma_add_value_within(t.cat, pairs[j].1, c, pairs, j);
            assert forall|x: int| 0 <= x < t2.vec.len() implies c <= (#[trigger] t2.vec[x]).1.len()
                <= c + 1 && (t2.vec[x].1.len() == c + 1 ==> exists|m: int|
                0 <= m < j + 1 && pairs[m].0 == t2.vec[x].0) by {
                if t2.vec[x].1.len() == c + 1 {
                    let m = choose|m: int| 0 <= m < j && pairs[m].0 == t.vec[x].0;
                }
            }
        }
        lemma_add_pairs_within(t2, pairs, j + 1, c);
    }
}

/// A row whose attribute keys are distinct keeps a table aligned: after it,
/// every column, fixed or attribute, still holds one entry per row.
pub proof fn lemma_row_keeps_alignment(
    t: TableModel,
    seqname: Seq<char>,
    start: u64,
    end: u64,
    strand: i8,
    pairs: Seq<(Seq<char>, Seq<char>)>,
)
    requires
        aligned(t),
        distinct_keys(pairs),
        add_row(t, seqname, start, end, strand, pairs) is Some,
    ensures
        aligned(add_row(t, seqname, start, end, strand, pairs)->0),
{
    let c = t.count;
    let t1 = TableModel {
        seqname: t.seqname.push(seqname),
        start: t.start.push(start),
        end: t.end.push(end),
        strand: t.strand.push(strand),
        cat: t.cat,
        vec: t.vec,
        count: t.count,
    };
    assert(columns_within(t1.cat, c, pairs, 0));
    assert(columns_within(t1.vec, c, pairs, 0));
    lemma_add_pairs_within(t1, pairs, 0, c);
    let t2 = add_pairs(t1, pairs, 0)->0;
    let r = add_row(t, seqname, start, end, strand, pairs)->0;
    assert forall|x: int| 0 <= x < r.cat.len() implies (#[trigger] r.cat[x]).1.len() == r.count by {
        assert(c <= t2.cat[x].1.len() <= c + 1);
    }
    assert forall|x: int| 0 <= x < r.vec.len() implies (#[trigger] r.vec[x]).1.len() == r.count by {
        assert(c <= t2.vec[x].1.len() <= c + 1);
    }
}

} // verus!
