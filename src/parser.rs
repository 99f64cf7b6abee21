use vstd::prelude::*;

use crate::attributes::{attribute_pairs, parse_attributes};
use crate::categorical::strings_view;
use crate::error::ParseError;
use crate::key_index::KeyIndex;
use crate::table::{
    add_row, aligned, distinct_keys, empty_table, index_matches, lemma_row_keeps_alignment, GTFEntrys,
    TableModel,
};
use crate::text::{parse_decimal, parse_u64, piece, range_equals, split_bounds, split_n, to_chars};

verus! {

/// Feature tables by feature name, in the order in which the features first came.
pub type TablesModel = Seq<(Seq<char>, TableModel)>;

/// The feature names of some tables, in order.
pub open spec fn table_keys(m: TablesModel) -> Seq<Seq<char>> {
    m.map_values(|t: (Seq<char>, TableModel)| t.0)
}

/// Whether `m` has a table for `feature`.
pub open spec fn has_table(m: TablesModel, feature: Seq<char>) -> bool {
    exists|i: int| 0 <= i < m.len() && m[i].0 == feature
}

/// The position of the table for `feature` (where there is one).
pub open spec fn table_index(m: TablesModel, feature: Seq<char>) -> int {
    choose|i: int| 0 <= i < m.len() && m[i].0 == feature
}

/// The strand code of a strand field: `+1` for `+`, `-1` for `-`, else `0`.
pub open spec fn strand_of(s: Seq<char>) -> i8 {
    if s == seq!['+'] {
        1i8
    } else if s == seq!['-'] {
        -1i8
    } else {
        0i8
    }
}

/// Whether a record of `feature` is taken, where no table for it exists
/// yet: every feature is taken where `accepted` is empty.
pub open spec fn is_accepted(accepted: Seq<Seq<char>>, feature: Seq<char>) -> bool {
    accepted.len() == 0 || accepted.contains(feature)
}

/// The tables `m` after one more line, or the error that ends the parse.
///
/// Empty lines and lines that start with `#` change nothing. Otherwise the
/// line is cut at tabs into at most nine fields: sequence name, source,
/// feature, start, end, score, strand, frame and attributes. A record whose
/// feature has no table yet and is not accepted is dropped. With
/// `zero_based`, `start` is made 0-based by subtracting one; a start of 0,
/// which has no 1-based meaning, stays 0.
pub open spec fn line_step(
    m: TablesModel,
    line: Seq<char>,
    accepted: Seq<Seq<char>>,
    zero_based: bool,
) -> Result<TablesModel, ParseError> {
    if line.len() == 0 || line[0] == '#' {
        Ok(m)
    } else {
        let f = split_n(line, '\t', 9);
        if f.len() < 3 {
            Err(ParseError::MalformedRecord)
        } else if !has_table(m, f[2]) && !is_accepted(accepted, f[2]) {
            Ok(m)
        } else if f.len() < 4 {
            Err(ParseError::MalformedRecord)
        } else {
            match parse_u64(f[3]) {
                None => Err(ParseError::NumericParseError),
                Some(s) => if f.len() < 5 {
                    Err(ParseError::MalformedRecord)
                } else {
                    match parse_u64(f[4]) {
                        None => Err(ParseError::NumericParseError),
                        Some(e) => if f.len() < 9 {
                            Err(ParseError::MalformedRecord)
                        } else {
                            match attribute_pairs(f[8], f[2]) {
                                None => Err(ParseError::MalformedRecord),
                                Some(pairs) => {
                                    let start: u64 = if zero_based && s > 0 {
                                        (s - 1) as u64
                                    } else {
                                        s
                                    };
                                    store_row(m, f[2], f[0], start, e, strand_of(f[6]), pairs)
                                },
                            }
                        },
                    }
                },
            }
        }
    }
}

/// `m` with one row added to the table for `feature`, which is created
/// where it is new.
pub open spec fn store_row(
    m: TablesModel,
    feature: Seq<char>,
    seqname: Seq<char>,
    start: u64,
    end: u64,
    strand: i8,
    pairs: Seq<(Seq<char>, Seq<char>)>,
) -> Result<TablesModel, ParseError> {
    if has_table(m, feature) {
        let i = table_index(m, feature);
        match add_row(m[i].1, seqname, start, end, strand, pairs) {
            None => Err(ParseError::TooManyValues),
            Some(t) => Ok(m.update(i, (feature, t))),
        }
    } else if m.len() >= u32::MAX {
        Err(ParseError::TooManyValues)
    } else {
        match add_row(empty_table(), seqname, start, end, strand, pairs) {
            None => Err(ParseError::TooManyValues),
            Some(t) => Ok(m.push((feature, t))),
        }
    }
}

/// The tables that the lines `lines` give, or the first error.
pub open spec fn parse_model(lines: Seq<Seq<char>>, accepted: Seq<Seq<char>>, zero_based: bool) -> Result<
    TablesModel,
    ParseError,
>
    decreases lines.len(),
{
    if lines.len() == 0 {
        Ok(Seq::empty())
    } else {
        match parse_model(lines.drop_last(), accepted, zero_based) {
            Ok(m) => line_step(m, lines.last(), accepted, zero_based),
            Err(e) => Err(e),
        }
    }
}

/// Feature tables as a model.
pub open spec fn tables_view(v: Seq<(String, GTFEntrys)>) -> TablesModel {
    v.map_values(|t: (String, GTFEntrys)| (t.0@, t.1@))
}

/// The outcome of a parse: one table per feature, in the order in which the
/// features first came.
pub struct ParseResult {
    pub features: Vec<(String, GTFEntrys)>,
}

impl View for ParseResult {
    type V = TablesModel;

    open spec fn view(&self) -> TablesModel {
        tables_view(self.features@)
    }
}

impl ParseResult {
    /// The table for `feature`, if there is one.
    pub fn get(&self, feature: &str) -> (r: Option<&GTFEntrys>)
        ensures
            match r {
                Some(t) => has_table(self@, feature@) && exists|i: int|
                    0 <= i < self@.len() && self@[i].0 == feature@ && t@ == self@[i].1,
                None => !has_table(self@, feature@),
            },
    {
        let key = feature.to_owned();
        let mut i: usize = 0;
        while i < self.features.len()
            invariant
                0 <= i <= self.features@.len(),
                key@ == feature@,
                forall|j: int| 0 <= j < i ==> self@[j].0 != feature@,
            decreases self.features@.len() - i,
        {
            if self.features[i].0 == key {
                assert(self@[i as int].0 == feature@);
                return Some(&self.features[i].1);
            }
            i = i + 1;
        }
        None
    }

    /// The number of feature tables.
    pub fn len(&self) -> (r: usize)
        ensures
            r == self@.len(),
    {
        self.features.len()
    }
}

/// A parse in progress: the tables built so far, and the settings.
pub struct GtfParser {
    tables: Vec<(String, GTFEntrys)>,
    table_index: KeyIndex,
    accepted: Vec<String>,
    accepted_index: KeyIndex,
    zero_based: bool,
}

impl GtfParser {
    /// The tables built so far.
    pub closed spec fn model(&self) -> TablesModel {
        tables_view(self.tables@)
    }

    /// The accepted features; empty where every feature is accepted.
    pub closed spec fn accepted(&self) -> Seq<Seq<char>> {
        strings_view(self.accepted@)
    }

    /// Whether starts are made 0-based.
    pub closed spec fn zero_based(&self) -> bool {
        self.zero_based
    }

    /// Each table well formed, and the indexes right.
    pub closed spec fn wf(&self) -> bool {
        &&& forall|i: int| 0 <= i < self.tables@.len() ==> (#[trigger] self.tables@[i]).1.wf()
        &&& index_matches(self.table_index@, table_keys(tables_view(self.tables@)))
        &&& forall|k: Seq<char>| #[trigger]
            self.accepted_index@.contains_key(k) <==> strings_view(self.accepted@).contains(k)
    }

    /// A parse with no line read yet, taking the records of the features in
    /// `accepted_features` (of every feature, where it is empty).
    pub fn new(accepted_features: &Vec<String>, zero_based_start: bool) -> (r: GtfParser)
        ensures
            r.wf(),
            r.model() == Seq::<(Seq<char>, TableModel)>::empty(),
            r.accepted() == strings_view(accepted_features@),
            r.zero_based() == zero_based_start,
    {
        let mut accepted: Vec<String> = Vec::new();
        let mut accepted_index = KeyIndex::new();
        let mut i: usize = 0;
        while i < accepted_features.len()
            invariant
                0 <= i <= accepted_features@.len(),
                accepted@.len() == i,
                forall|j: int| 0 <= j < i ==> (#[trigger] accepted@[j])@ == accepted_features@[j]@,
                forall|k: Seq<char>| #[trigger]
                    accepted_index@.contains_key(k) <==> strings_view(accepted@).contains(k),
            decreases accepted_features@.len() - i,
        {
            let name = accepted_features[i].clone();
            let ghost before = strings_view(accepted@);
            let ghost old_idx = accepted_index@;
            accepted_index.insert(name.clone(), 0);
            accepted.push(name);
            proof {
                assert(strings_view(accepted@) =~= before.push(name@));
                assert forall|k: Seq<char>| #[trigger]
                    accepted_index@.contains_key(k) <==> strings_view(accepted@).contains(k) by {
                    if k == name@ {
                        assert(strings_view(accepted@)[i as int] == k);
                    } else {
                        assert(old_idx.contains_key(k) <==> before.contains(k));
                        if strings_view(accepted@).contains(k) {
                            let j = choose|j: int|
                                0 <= j < strings_view(accepted@).len() && strings_view(
                                    accepted@,
                                )[j] == k;
                            assert(before[j] == k);
                        }
                        if before.contains(k) {
                            let j = choose|j: int| 0 <= j < before.len() && before[j] == k;
                            assert(strings_view(accepted@)[j] == k);
                        }
                    }
                }
            }
            i = i + 1;
        }
        let r = GtfParser {
            tables: Vec::new(),
            table_index: KeyIndex::new(),
            accepted,
            accepted_index,
            zero_based: zero_based_start,
        };
        proof {
            assert(strings_view(accepted@) =~= strings_view(accepted_features@));
            assert(tables_view(r.tables@) =~= Seq::<(Seq<char>, TableModel)>::empty());
            assert(table_keys(tables_view(r.tables@)) =~= Seq::<Seq<char>>::empty());
            assert forall|k: Seq<char>| #[trigger] r.table_index@.contains_key(k) implies false by {
                assert(r.table_index@.dom().contains(k));
            }
        }
        r
    }

    /// Reads one more line, as `line_step` says. After an error the parse
    /// is over: the tables built so far are not to be used.
    pub fn feed_line(&mut self, line: &str) -> (r: Result<(), ParseError>)
        requires
            old(self).wf(),
        ensures
            final(self).accepted() == old(self).accepted(),
            final(self).zero_based() == old(self).zero_based(),
            match line_step(old(self).model(), line@, old(self).accepted(), old(self).zero_based()) {
                Ok(m) => r is Ok && final(self).wf() && final(self).model() == m,
                Err(e) => r == Err::<(), ParseError>(e),
            },
    {
        let s = to_chars(line);
        if s.len() == 0 || s[0] == '#' {
            return Ok(());
        }
        let f = split_bounds(&s, '\t', 9);
        let ghost fs = split_n(s@, '\t', 9);
        assert(f@.len() == fs.len());
        assert(s@ == line@);
        assert(line@.len() > 0 && line@[0] != '#');
        assert(fs == split_n(line@, '\t', 9));
        if f.len() < 3 {
            assert(line_step(self.model(), line@, self.accepted(), self.zero_based()) == Err::<TablesModel, ParseError>(ParseError::MalformedRecord));
            return Err(ParseError::MalformedRecord);
        }
        let feature = piece(line, &s, f[2].0, f[2].1);
        assert(feature@ == fs[2]);
        let ghost m = self.model();
        let ghost keys = table_keys(m);
        let existing = self.table_index.get(feature.as_str());
        proof {
            if has_table(m, feature@) {
                let j = choose|j: int| 0 <= j < m.len() && m[j].0 == feature@;
                assert(keys[j] == feature@);
            }
            match existing {
                Some(ix) => {
                    let j = choose|j: int| 0 <= j < keys.len() && keys[j] == feature@;
                    assert(self.table_index@[keys[j]] == j as u32);
                    assert(m[j].0 == feature@);
                    assert(table_index(m, feature@) == j) by {
                        let c = table_index(m, feature@);
                        assert(keys[c] == feature@);
                    }
                },
                None => {},
            }
        }
        let ghost acc = self.accepted();
        assert(acc.len() == self.accepted@.len());
        let listed = self.accepted_index.get(feature.as_str());
        proof {
            if listed is Some {
                assert(self.accepted_index@.contains_key(feature@));
                assert(acc.contains(feature@));
            } else {
                assert(!self.accepted_index@.contains_key(feature@));
                assert(!acc.contains(feature@));
            }
            if existing is None {
                assert(!self.table_index@.contains_key(feature@));
                assert(!keys.contains(feature@));
                assert(!has_table(m, feature@));
            }
        }
        if existing.is_none() && self.accepted.len() > 0 && listed.is_none() {
            return Ok(());
        }
        if f.len() < 4 {
            return Err(ParseError::MalformedRecord);
        }
        assert(s@.subrange(f@[3].0 as int, f@[3].1 as int) == fs[3]);
        let start = match parse_decimal(&s, f[3].0, f[3].1) {
            None => {
                return Err(ParseError::NumericParseError);
            },
            Some(v) => v,
        };
        assert(s@.subrange(f@[3].0 as int, f@[3].1 as int) == fs[3]);
        let start = if self.zero_based && start > 0 {
            start - 1
        } else {
            start
        };
        if f.len() < 5 {
            return Err(ParseError::MalformedRecord);
        }
        assert(s@.subrange(f@[4].0 as int, f@[4].1 as int) == fs[4]);
        let end = match parse_decimal(&s, f[4].0, f[4].1) {
            None => {
                return Err(ParseError::NumericParseError);
            },
            Some(v) => v,
        };
        assert(s@.subrange(f@[4].0 as int, f@[4].1 as int) == fs[4]);
        if f.len() < 9 {
            return Err(ParseError::MalformedRecord);
        }
        let attributes = piece(line, &s, f[8].0, f[8].1);
        assert(attributes@ == fs[8]);
        let pairs = match parse_attributes(attributes.as_str(), feature.as_str()) {
            Ok(p) => p,
            Err(e) => {
                return Err(e);
            },
        };
        let seqname = piece(line, &s, f[0].0, f[0].1);
        assert(seqname@ == fs[0]);
        let plus = vec!['+'];
        let minus = vec!['-'];
        assert(plus@ =~= seq!['+']);
        assert(minus@ =~= seq!['-']);
        assert(s@.subrange(f@[6].0 as int, f@[6].1 as int) == fs[6]);
        let strand: i8 = if range_equals(&s, f[6].0, f[6].1, &plus) {
            1
        } else if range_equals(&s, f[6].0, f[6].1, &minus) {
            -1
        } else {
            0
        };
        assert(strand == strand_of(fs[6]));
        match existing {
            Some(ix) => {
                let i = ix as usize;
                let ghost entries = self.tables@;
                assert(entries[i as int].1.wf());
                let res = self.tables[i].1.push_row(seqname.as_str(), start, end, strand, &pairs);
                match res {
                    Err(e) => {
                        return Err(e);
                    },
                    Ok(()) => {},
                }
                proof {
                    let t = self.tables@[i as int].1@;
                    assert(self.tables@[i as int].0 == entries[i as int].0);
                    assert(tables_view(self.tables@) =~= m.update(i as int, (feature@, t)));
                    assert(table_keys(tables_view(self.tables@)) =~= keys);
                    assert forall|j: int| 0 <= j < self.tables@.len() implies (
                    #[trigger] self.tables@[j]).1.wf() by {
                        if j != i {
                            assert(self.tables@[j] == entries[j]);
                        }
                    }
                }
                Ok(())
            },
            None => {
                if self.tables.len() >= 4294967295 {
                    return Err(ParseError::TooManyValues);
                }
                let mut t = GTFEntrys::new();
                match t.push_row(seqname.as_str(), start, end, strand, &pairs) {
                    Err(e) => {
                        return Err(e);
                    },
                    Ok(()) => {},
                }
                let n = self.tables.len() as u32;
                let ghost entries = self.tables@;
                proof {
                    crate::table::lemma_index_push(self.table_index@, keys, feature@);
                }
                self.table_index.insert(feature.clone(), n);
                self.tables.push((feature, t));
                proof {
                    assert(tables_view(self.tables@) =~= m.push((feature@, t@)));
                    assert(table_keys(tables_view(self.tables@)) =~= keys.push(feature@));
                    assert forall|j: int| 0 <= j < self.tables@.len() implies (
                    #[trigger] self.tables@[j]).1.wf() by {
                        if j < entries.len() {
                            assert(self.tables@[j] == entries[j]);
                        }
                    }
                }
                Ok(())
            },
        }
    }

    /// The tables built, handed over to the caller.
    pub fn finish(self) -> (r: ParseResult)
        requires
            self.wf(),
        ensures
            r@ == self.model(),
            forall|i: int| 0 <= i < r.features@.len() ==> (#[trigger] r.features@[i]).1.wf(),
    {
        ParseResult { features: self.tables }
    }
}

/// Parses the lines of a GTF file into one table per feature.
///
/// Only the records of the features in `accepted_features` are kept (all of
/// them, where it is empty). With `zero_based_start`, starts are made
/// 0-based (a start of 0 stays 0). The first malformed record ends the parse
/// with its error, and nothing parsed before it is returned.
pub fn parse_lines(lines: &Vec<String>, accepted_features: &Vec<String>, zero_based_start: bool) -> (r:
    Result<ParseResult, ParseError>)
    ensures
        match parse_model(strings_view(lines@), strings_view(accepted_features@), zero_based_start) {
            Ok(m) => r is Ok && r->Ok_0@ == m && forall|i: int|
                0 <= i < r->Ok_0.features@.len() ==> (#[trigger] r->Ok_0.features@[i]).1.wf(),
            Err(e) => r == Err::<ParseResult, ParseError>(e),
        },
{
    let mut parser = GtfParser::new(accepted_features, zero_based_start);
    let ghost ls = strings_view(lines@);
    let ghost acc = strings_view(accepted_features@);
    let mut i: usize = 0;
    while i < lines.len()
        invariant
            0 <= i <= lines@.len(),
            ls == strings_view(lines@),
            acc == strings_view(accepted_features@),
            parser.wf(),
            parser.accepted() == acc,
            parser.zero_based() == zero_based_start,
            parse_model(ls.take(i as int), acc, zero_based_start) == Ok::<TablesModel, ParseError>(
                parser.model(),
            ),
        decreases lines@.len() - i,
    {
        assert(ls.take(i + 1).drop_last() =~= ls.take(i as int));
        assert(ls.take(i + 1).last() == lines@[i as int]@);
        match parser.feed_line(lines[i].as_str()) {
            Err(e) => {
                proof {
                    assert(parse_model(ls.take(i + 1), acc, zero_based_start) == Err::<
                        TablesModel,
                        ParseError,
                    >(e));
                    lemma_error_is_final(ls, acc, zero_based_start, i + 1);
                    assert(parse_model(ls, acc, zero_based_start) == Err::<TablesModel, ParseError>(
                        e,
                    ));

                }
                return Err(e);
            },
            Ok(()) => {},
        }
        i = i + 1;
    }
    assert(ls.take(i as int) =~= ls);
    Ok(parser.finish())
}

/// Once a line fails, the whole parse fails with that line's error: no
/// later line changes the outcome.
pub proof fn lemma_error_is_final(
    lines: Seq<Seq<char>>,
    accepted: Seq<Seq<char>>,
    zero_based: bool,
    k: int,
)
    requires
        0 <= k <= lines.len(),
        parse_model(lines.take(k), accepted, zero_based) is Err,
    ensures
        parse_model(lines, accepted, zero_based) == parse_model(lines.take(k), accepted, zero_based),
    decreases lines.len() - k,
{
    if k < lines.len() {
        let next = lines.take(k + 1);
        assert(next.drop_last() =~= lines.take(k));
        lemma_error_is_final(lines, accepted, zero_based, k + 1);
    } else {
        assert(lines.take(k) =~= lines);
    }
}

/// Whether a line, where it is a record with an attributes field that
/// parses, has distinct attribute keys (after tag renaming and filtering).
pub open spec fn line_keys_distinct(line: Seq<char>) -> bool {
    let f = split_n(line, '\t', 9);
    f.len() >= 9 ==> match attribute_pairs(f[8], f[2]) {
        Some(p) => distinct_keys(p),
        None => true,
    }
}

/// Whether every table of `m` is aligned.
pub open spec fn all_aligned(m: TablesModel) -> bool {
    forall|i: int| 0 <= i < m.len() ==> aligned(#[trigger] m[i].1)
}

proof fn lemma_step_keeps_alignment(
    m: TablesModel,
    line: Seq<char>,
    accepted: Seq<Seq<char>>,
    zero_based: bool,
)
    requires
        all_aligned(m),
        line_keys_distinct(line),
        line_step(m, line, accepted, zero_based) is Ok,
    ensures
        all_aligned(line_step(m, line, accepted, zero_based)->Ok_0),
{
    let r = line_step(m, line, accepted, zero_based)->Ok_0;
    if !(line.len() == 0 || line[0] == '#') {
        let f = split_n(line, '\t', 9);
        if f.len() >= 9 && (has_table(m, f[2]) || is_accepted(accepted, f[2])) {
            let s = parse_u64(f[3])->0;
            let e = parse_u64(f[4])->0;
            let pairs = attribute_pairs(f[8], f[2])->0;
            let start: u64 = if zero_based && s > 0 {
                (s - 1) as u64
            } else {
                s
            };
            let strand = strand_of(f[6]);
            if has_table(m, f[2]) {
                let i = table_index(m, f[2]);
                lemma_row_keeps_alignment(m[i].1, f[0], start, e, strand, pairs);
                assert forall|x: int| 0 <= x < r.len() implies aligned(#[trigger] r[x].1) by {
                    if x != i {
                        assert(r[x] == m[x]);
                    }
                }
            } else {
                lemma_row_keeps_alignment(empty_table(), f[0], start, e, strand, pairs);
                assert forall|x: int| 0 <= x < r.len() implies aligned(#[trigger] r[x].1) by {
                    if x < m.len() {
                        assert(r[x] == m[x]);
                    }
                }
            }
        }
    }
}

/// Alignment: where no record repeats an attribute key, every column of
/// every table of a successful parse holds exactly one entry per row of its
/// table.
pub proof fn lemma_parse_aligned(lines: Seq<Seq<char>>, accepted: Seq<Seq<char>>, zero_based: bool)
    requires
        forall|i: int| 0 <= i < lines.len() ==> line_keys_distinct(#[trigger] lines[i]),
        parse_model(lines, accepted, zero_based) is Ok,
    ensures
        all_aligned(parse_model(lines, accepted, zero_based)->Ok_0),
    decreases lines.len(),
{
    if lines.len() > 0 {
        let p = lines.drop_last();
        assert forall|i: int| 0 <= i < p.len() implies line_keys_distinct(#[trigger] p[i]) by {
            assert(p[i] == lines[i]);
        }
        lemma_parse_aligned(p, accepted, zero_based);
        assert(line_keys_distinct(lines[lines.len() - 1]));
        lemma_step_keeps_alignment(
            parse_model(p, accepted, zero_based)->Ok_0,
            lines.last(),
            accepted,
            zero_based,
        );
    }
}

/// Filtering: with a non-empty list of accepted features, a successful
/// parse holds tables for accepted features only.
pub proof fn lemma_only_accepted_tables(
    lines: Seq<Seq<char>>,
    accepted: Seq<Seq<char>>,
    zero_based: bool,
)
    requires
        accepted.len() > 0,
        parse_model(lines, accepted, zero_based) is Ok,
    ensures
        forall|i: int|
            0 <= i < parse_model(lines, accepted, zero_based)->Ok_0.len() ==> accepted.contains(
                (#[trigger] parse_model(lines, accepted, zero_based)->Ok_0[i]).0,
            ),
    decreases lines.len(),
{
    if lines.len() > 0 {
        let p = lines.drop_last();
        lemma_only_accepted_tables(p, accepted, zero_based);
        let m = parse_model(p, accepted, zero_based)->Ok_0;
        let r = parse_model(lines, accepted, zero_based)->Ok_0;
        let line = lines.last();
        if !(line.len() == 0 || line[0] == '#') {
            let f = split_n(line, '\t', 9);
            if f.len() >= 9 && (has_table(m, f[2]) || is_accepted(accepted, f[2])) {
                if has_table(m, f[2]) {
                    let i = table_index(m, f[2]);
                    assert forall|x: int| 0 <= x < r.len() implies accepted.contains(
                        (#[trigger] r[x]).0,
                    ) by {
                        assert(r[x].0 == m[x].0);
                    }
                } else {
                    assert forall|x: int| 0 <= x < r.len() implies accepted.contains(
                        (#[trigger] r[x]).0,
                    ) by {
                        if x < m.len() {
                            assert(r[x] == m[x]);
                        }
                    }
                }
            }
        }
    }
}

/// Whether `line` is a record of a feature that `accepted` leaves out.
pub open spec fn is_filtered_out(line: Seq<char>, accepted: Seq<Seq<char>>) -> bool {
    let f = split_n(line, '\t', 9);
    &&& !(line.len() == 0 || line[0] == '#')
    &&& f.len() >= 3
    &&& !is_accepted(accepted, f[2])
}

/// Filtering: with a non-empty list of accepted features, the records of
/// other features play no part. Parsing `lines` gives exactly what parsing
/// them without those records gives, error or tables alike.
pub proof fn lemma_filtered_records_ignored(
    lines: Seq<Seq<char>>,
    accepted: Seq<Seq<char>>,
    zero_based: bool,
)
    requires
        accepted.len() > 0,
    ensures
        parse_model(lines, accepted, zero_based) == parse_model(
            lines.filter(|l: Seq<char>| !is_filtered_out(l, accepted)),
            accepted,
            zero_based,
        ),
    decreases lines.len(),
{
    reveal(Seq::filter);
    let keep = |l: Seq<char>| !is_filtered_out(l, accepted);
    if lines.len() > 0 {
        let p = lines.drop_last();
        lemma_filtered_records_ignored(p, accepted, zero_based);
        let kept = lines.filter(keep);
        let kept_p = p.filter(keep);
        let line = lines.last();
        if keep(line) {
            assert(kept == kept_p.push(line));
            assert(kept.drop_last() =~= kept_p);
        } else {
            assert(kept == kept_p);
            match parse_model(p, accepted, zero_based) {
                Ok(m) => {
                    lemma_only_accepted_tables(p, accepted, zero_based);
                    let f = split_n(line, '\t', 9);
                    if has_table(m, f[2]) {
                        let i = choose|i: int| 0 <= i < m.len() && m[i].0 == f[2];
                        assert(accepted.contains(m[i].0));
                    }
                },
                Err(e) => {},
            }
        }
    }
}

} // verus!
