//! Stats manifest: column statistics of row groups, for pruning by range predicates.
//!
//! A predicate range `[lo, hi]` overlaps a row group's range `[min, max]` exactly if `min <= hi`
//! and `max >= lo`. Several predicates must all overlap. A row group without statistics for a
//! column cannot be ruled out.

use vstd::prelude::*;
use vstd::utf8::encode_utf8;
use crate::order::{
    ascending, compare_bytes, find, law_find, lemma_find_none_means_absent, lemma_find_present,
    lemma_lex_asymmetric, lemma_lex_irreflexive, lemma_lex_not_after_then_before, lemma_lex_total,
    lex_less, KeyOrder,
};
use crate::sorted_map::{law_put, lemma_put_at, put};
use crate::text::{same_text, text_bytes};

verus! {

// ---------------------------------------------------------------------------
// Types
// ---------------------------------------------------------------------------

/// Statistics of one column in one row group. The bytes are compared lexicographically.
#[derive(Debug, Clone, PartialEq, Eq)]
pub struct ColumnStats {
    /// Smallest value.
    pub min: Vec<u8>,
    /// Largest value.
    pub max: Vec<u8>,
    /// Number of nulls.
    pub null_count: u64,
}

/// Statistics of a row group.
#[derive(Debug, Clone, PartialEq, Eq)]
pub struct RowGroupStats {
    /// Index of the row group in its file.
    pub row_group: u32,
    /// Statistics by column name, sorted by the name's bytes, no name twice.
    pub columns: Vec<(String, ColumnStats)>,
}

/// Statistics of a file.
#[derive(Debug, Clone, PartialEq, Eq)]
pub struct FileStats {
    /// Path of the file.
    pub path: String,
    /// Statistics of its row groups.
    pub row_groups: Vec<RowGroupStats>,
}

/// The condition that a column lies between two values, both included.
#[derive(Debug, Clone, PartialEq, Eq)]
pub struct RangePredicate {
    /// Name of the column.
    pub column: String,
    /// Lower bound.
    pub min: Vec<u8>,
    /// Upper bound.
    pub max: Vec<u8>,
}

/// A row group of a file.
#[derive(Debug, Clone, PartialEq, Eq, Hash)]
pub struct RowGroupRef {
    /// Path of the file.
    pub file: String,
    /// Index of the row group in the file.
    pub row_group: u32,
}

/// Statistics of a dataset.
#[derive(Debug, Clone, PartialEq, Eq)]
pub struct StatsManifest {
    /// Version of the manifest's format.
    pub version: u32,
    /// Statistics of the files.
    pub files: Vec<FileStats>,
}

// ---------------------------------------------------------------------------
// Model
// ---------------------------------------------------------------------------

/// Statistics of one column.
#[verifier::ext_equal]
pub struct Extent {
    pub min: Seq<u8>,
    pub max: Seq<u8>,
    pub null_count: u64,
}

/// The columns of a row group: the bytes of each name with the column's statistics.
pub type Columns = Seq<(Seq<u8>, Extent)>;

/// A row group.
#[verifier::ext_equal]
pub struct Group {
    pub row_group: u32,
    pub columns: Columns,
}

/// A file.
#[verifier::ext_equal]
pub struct FileGroups {
    pub path: Seq<char>,
    pub row_groups: Seq<Group>,
}

/// A predicate.
#[verifier::ext_equal]
pub struct Condition {
    pub column: Seq<char>,
    pub min: Seq<u8>,
    pub max: Seq<u8>,
}

/// A reference to a row group: the path of its file, and its index there.
pub type GroupRef = (Seq<char>, u32);

impl View for ColumnStats {
    type V = Extent;

    open spec fn view(&self) -> Extent {
        Extent { min: self.min@, max: self.max@, null_count: self.null_count }
    }
}

/// The columns of a list in memory.
pub open spec fn columns_view(columns: Seq<(String, ColumnStats)>) -> Columns {
    columns.map_values(|c: (String, ColumnStats)| (encode_utf8(c.0@), c.1@))
}

impl View for RowGroupStats {
    type V = Group;

    open spec fn view(&self) -> Group {
        Group { row_group: self.row_group, columns: columns_view(self.columns@) }
    }
}

impl View for FileStats {
    type V = FileGroups;

    open spec fn view(&self) -> FileGroups {
        FileGroups {
            path: self.path@,
            row_groups: self.row_groups@.map_values(|g: RowGroupStats| g@),
        }
    }
}

impl View for RangePredicate {
    type V = Condition;

    open spec fn view(&self) -> Condition {
        Condition { column: self.column@, min: self.min@, max: self.max@ }
    }
}

impl View for RowGroupRef {
    type V = GroupRef;

    open spec fn view(&self) -> GroupRef {
        (self.file@, self.row_group)
    }
}

impl View for StatsManifest {
    type V = Seq<FileGroups>;

    open spec fn view(&self) -> Seq<FileGroups> {
        self.files@.map_values(|f: FileStats| f@)
    }
}

/// The references of a list in memory.
pub open spec fn refs_view(refs: Seq<RowGroupRef>) -> Seq<GroupRef> {
    refs.map_values(|r: RowGroupRef| r@)
}

/// Columns collected from a list: of a name that occurs twice, the last stays.
pub open spec fn collected(columns: Columns) -> Columns
    decreases columns.len(),
{
    if columns.len() == 0 {
        Seq::empty()
    } else {
        put(collected(columns.drop_last()), columns.last().0, columns.last().1)
    }
}

/// The first place of a file among files.
pub open spec fn file_index(files: Seq<FileGroups>, path: Seq<char>) -> Option<int>
    decreases files.len(),
{
    if files.len() == 0 {
        None
    } else {
        match file_index(files.drop_last(), path) {
            Some(i) => Some(i),
            None => if files.last().path == path {
                Some(files.len() - 1)
            } else {
                None
            },
        }
    }
}

/// Files after a row group was added: to its file if there is one, or to a new one.
pub open spec fn with_group(files: Seq<FileGroups>, path: Seq<char>, group: Group) -> Seq<
    FileGroups,
> {
    match file_index(files, path) {
        Some(i) => files.update(
            i,
            FileGroups { path: files[i].path, row_groups: files[i].row_groups.push(group) },
        ),
        None => files.push(FileGroups { path, row_groups: seq![group] }),
    }
}

/// The files after row groups were added one by one, each with the path of its file.
pub open spec fn files_of(adds: Seq<(Seq<char>, Group)>) -> Seq<FileGroups>
    decreases adds.len(),
{
    if adds.len() == 0 {
        Seq::empty()
    } else {
        with_group(files_of(adds.drop_last()), adds.last().0, adds.last().1)
    }
}

/// The row groups that were added with `path`, in the order in which they were.
pub open spec fn groups_under(adds: Seq<(Seq<char>, Group)>, path: Seq<char>) -> Seq<Group>
    decreases adds.len(),
{
    if adds.len() == 0 {
        Seq::empty()
    } else {
        let before = groups_under(adds.drop_last(), path);
        if adds.last().0 == path {
            before.push(adds.last().1)
        } else {
            before
        }
    }
}

/// The different paths with which row groups were added.
pub open spec fn paths_of(adds: Seq<(Seq<char>, Group)>) -> Set<Seq<char>> {
    adds.map_values(|a: (Seq<char>, Group)| a.0).to_set()
}

/// Whether a column's range overlaps that of a predicate.
pub open spec fn overlaps(extent: Extent, p: Condition) -> bool {
    !lex_less(p.max, extent.min) && !lex_less(extent.max, p.min)
}

/// Whether a row group can hold rows that meet a predicate. Without statistics it can.
pub open spec fn admits(group: Group, p: Condition) -> bool {
    match find(group.columns, encode_utf8(p.column)) {
        None => true,
        Some(extent) => overlaps(extent, p),
    }
}

/// Whether a row group can hold rows that meet all predicates.
pub open spec fn admits_all(group: Group, predicates: Seq<Condition>) -> bool {
    forall|i: int| 0 <= i < predicates.len() ==> admits(group, #[trigger] predicates[i])
}

/// The row groups of one file that can hold rows that meet all predicates.
pub open spec fn candidates_in(
    path: Seq<char>,
    groups: Seq<Group>,
    predicates: Seq<Condition>,
) -> Seq<GroupRef>
    decreases groups.len(),
{
    if groups.len() == 0 {
        Seq::empty()
    } else {
        let before = candidates_in(path, groups.drop_last(), predicates);
        if admits_all(groups.last(), predicates) {
            before.push((path, groups.last().row_group))
        } else {
            before
        }
    }
}

/// The row groups of all files that can hold rows that meet all predicates, in order.
pub open spec fn candidates(files: Seq<FileGroups>, predicates: Seq<Condition>) -> Seq<GroupRef>
    decreases files.len(),
{
    if files.len() == 0 {
        Seq::empty()
    } else {
        candidates(files.drop_last(), predicates) + candidates_in(
            files.last().path,
            files.last().row_groups,
            predicates,
        )
    }
}

/// The number of row groups.
pub open spec fn sum_groups(files: Seq<FileGroups>) -> nat
    decreases files.len(),
{
    if files.len() == 0 {
        0
    } else {
        sum_groups(files.drop_last()) + files.last().row_groups.len()
    }
}

// ---------------------------------------------------------------------------
// Laws
// ---------------------------------------------------------------------------

/// No false negatives: if a value lies within a column's range and meets a predicate on the
/// column, then the ranges overlap.
pub proof fn law_no_false_negatives(extent: Extent, p: Condition, value: Seq<u8>)
    requires
        !lex_less(value, extent.min),
        !lex_less(extent.max, value),
        !lex_less(value, p.min),
        !lex_less(p.max, value),
    ensures
        overlaps(extent, p),
{
    if lex_less(p.max, extent.min) {
        lemma_lex_not_after_then_before(value, p.max, extent.min);
    }
    if lex_less(extent.max, p.min) {
        lemma_lex_not_after_then_before(value, extent.max, p.min);
    }
}

/// Predicates are joined by "and": a row group meets two lists of predicates exactly if it meets
/// each of them.
pub proof fn law_conjunction(group: Group, p: Seq<Condition>, q: Seq<Condition>)
    ensures
        admits_all(group, p + q) <==> admits_all(group, p) && admits_all(group, q),
{
    let all = p + q;
    if admits_all(group, all) {
        assert forall|i: int| 0 <= i < p.len() implies admits(group, #[trigger] p[i]) by {
            assert(all[i] == p[i]);
        }
        assert forall|i: int| 0 <= i < q.len() implies admits(group, #[trigger] q[i]) by {
            assert(all[p.len() + i] == q[i]);
        }
    }
}

/// A row group that can hold matching rows is among the candidates.
pub proof fn law_candidates_complete(
    files: Seq<FileGroups>,
    predicates: Seq<Condition>,
    i: int,
    j: int,
)
    requires
        0 <= i < files.len(),
        0 <= j < files[i].row_groups.len(),
        admits_all(files[i].row_groups[j], predicates),
    ensures
        candidates(files, predicates).contains(
            (files[i].path, files[i].row_groups[j].row_group),
        ),
    decreases files.len(),
{
    let r = (files[i].path, files[i].row_groups[j].row_group);
    let before = candidates(files.drop_last(), predicates);
    let here = candidates_in(files.last().path, files.last().row_groups, predicates);
    if i == files.len() - 1 {
        lemma_candidates_in_complete(files[i].path, files[i].row_groups, predicates, j);
        let k = choose|k: int| 0 <= k < here.len() && here[k] == r;
        assert((before + here)[before.len() + k] == r);
    } else {
        law_candidates_complete(files.drop_last(), predicates, i, j);
        let k = choose|k: int| 0 <= k < before.len() && before[k] == r;
        assert((before + here)[k] == r);
    }
}

proof fn lemma_candidates_in_complete(
    path: Seq<char>,
    groups: Seq<Group>,
    predicates: Seq<Condition>,
    j: int,
)
    requires
        0 <= j < groups.len(),
        admits_all(groups[j], predicates),
    ensures
        candidates_in(path, groups, predicates).contains((path, groups[j].row_group)),
    decreases groups.len(),
{
    let r = (path, groups[j].row_group);
    let before = candidates_in(path, groups.drop_last(), predicates);
    if j == groups.len() - 1 {
        assert(before.push(r)[before.len() as int] == r);
    } else {
        lemma_candidates_in_complete(path, groups.drop_last(), predicates, j);
        let k = choose|k: int| 0 <= k < before.len() && before[k] == r;
        assert(candidates_in(path, groups, predicates)[k] == r);
    }
}

/// Collected columns are sorted by name, no name twice.
pub proof fn lemma_collected_sorted(columns: Columns)
    ensures
        ascending(collected(columns)),
    decreases columns.len(),
{
    if columns.len() > 0 {
        lemma_collected_sorted(columns.drop_last());
        law_put(collected(columns.drop_last()), columns.last().0, columns.last().1);
    }
}

/// What is recorded is what was given: of each name the statistics that were given last for it,
/// unchanged, and nothing under any other name.
pub proof fn law_collected(columns: Columns, name: Seq<u8>, i: int)
    requires
        -1 <= i < columns.len(),
        i >= 0 ==> columns[i].0 == name,
        forall|j: int| i < j < columns.len() ==> (#[trigger] columns[j]).0 != name,
    ensures
        ascending(collected(columns)),
        find(collected(columns), name) == if i >= 0 {
            Some(columns[i].1)
        } else {
            None
        },
        i >= 0 ==> collected(columns).contains(columns[i]),
        i < 0 ==> forall|m: int|
            0 <= m < collected(columns).len() ==> (#[trigger] collected(columns)[m]).0 != name,
    decreases columns.len(),
{
    lemma_collected_sorted(columns);
    if columns.len() > 0 {
        let fewer = columns.drop_last();
        let e = columns.last();
        lemma_collected_sorted(fewer);
        law_put(collected(fewer), e.0, e.1);
        if i == columns.len() - 1 {
            assert(find(collected(columns), name) == Some(e.1));
        } else {
            assert(columns[columns.len() - 1].0 != name);
            assert forall|j: int| i < j < fewer.len() implies (#[trigger] fewer[j]).0 != name by {
                assert(fewer[j] == columns[j]);
            }
            law_collected(fewer, name, i);
            assert(find(collected(columns), name) == find(collected(fewer), name));
        }
    }
    if i >= 0 {
        let m = lemma_find_present(collected(columns), name);
        assert(collected(columns)[m] == columns[i]);
    } else {
        assert forall|m: int| 0 <= m < collected(columns).len() implies (
        #[trigger] collected(columns)[m]).0 != name by {
            lemma_find_none_means_absent(collected(columns), name, m);
        }
    }
}

/// Two ranges overlap exactly if neither ends before the other begins. The number of nulls plays no
/// part.
pub proof fn law_overlaps(extent: Extent, p: Condition)
    ensures
        overlaps(extent, p) <==> (extent.min == p.max || lex_less(extent.min, p.max)) && (
        extent.max == p.min || lex_less(p.min, extent.max)),
{
    lemma_lex_total(extent.min, p.max);
    lemma_lex_total(extent.max, p.min);
    if lex_less(extent.min, p.max) {
        lemma_lex_asymmetric(extent.min, p.max);
    }
    if lex_less(p.min, extent.max) {
        lemma_lex_asymmetric(p.min, extent.max);
    }
    lemma_lex_irreflexive(p.max);
    lemma_lex_irreflexive(p.min);
}

/// A row group can hold rows that meet a predicate exactly if it has no statistics under the
/// predicate's column, or the range of those overlaps that of the predicate: `min <= p.max` and
/// `p.min <= max`. `i` is the first place of the column, or the number of columns.
pub proof fn law_admits(group: Group, p: Condition, i: int)
    requires
        0 <= i <= group.columns.len(),
        forall|j: int|
            0 <= j < i ==> (#[trigger] group.columns[j]).0 != encode_utf8(p.column),
        i < group.columns.len() ==> group.columns[i].0 == encode_utf8(p.column),
    ensures
        admits(group, p) <==> i == group.columns.len() || ((group.columns[i].1.min == p.max
            || lex_less(group.columns[i].1.min, p.max)) && (group.columns[i].1.max == p.min
            || lex_less(p.min, group.columns[i].1.max))),
{
    law_find(group.columns, encode_utf8(p.column), i);
    if i < group.columns.len() {
        law_overlaps(group.columns[i].1, p);
    }
}

/// No false negatives: a row group that has, for every predicate, no statistics under its column or
/// statistics with some value between `min` and `max` that meets the predicate, is among the
/// results of a query.
pub proof fn law_query_complete(
    files: Seq<FileGroups>,
    predicates: Seq<Condition>,
    i: int,
    j: int,
    values: Seq<Seq<u8>>,
)
    requires
        0 <= i < files.len(),
        0 <= j < files[i].row_groups.len(),
        values.len() == predicates.len(),
        forall|k: int, c: int|
            #![trigger predicates[k], files[i].row_groups[j].columns[c]]
            0 <= k < predicates.len() && 0 <= c < files[i].row_groups[j].columns.len()
                && files[i].row_groups[j].columns[c].0 == encode_utf8(predicates[k].column) ==> {
                let extent = files[i].row_groups[j].columns[c].1;
                &&& !lex_less(values[k], extent.min) && !lex_less(extent.max, values[k])
                &&& !lex_less(values[k], predicates[k].min) && !lex_less(
                    predicates[k].max,
                    values[k],
                )
            },
    ensures
        candidates(files, predicates).contains(
            (files[i].path, files[i].row_groups[j].row_group),
        ),
{
    let group = files[i].row_groups[j];
    assert forall|k: int| 0 <= k < predicates.len() implies admits(
        group,
        #[trigger] predicates[k],
    ) by {
        let name = encode_utf8(predicates[k].column);
        if find(group.columns, name) is Some {
            let c = lemma_find_present(group.columns, name);
            assert(files[i].row_groups[j].columns[c].0 == name);
            law_no_false_negatives(group.columns[c].1, predicates[k], values[k]);
        }
    }
    law_candidates_complete(files, predicates, i, j);
}

/// Every result of a query is a row group of which no predicate rules out all rows: under the
/// column of each it has no statistics, or a range that overlaps that of the predicate.
pub proof fn law_query_sound(files: Seq<FileGroups>, predicates: Seq<Condition>, n: int)
    requires
        0 <= n < candidates(files, predicates).len(),
    ensures
        exists|i: int, j: int|
            {
                &&& 0 <= i < files.len()
                &&& 0 <= j < files[i].row_groups.len()
                &&& candidates(files, predicates)[n] == (
                    files[i].path,
                    #[trigger] files[i].row_groups[j].row_group,
                )
                &&& forall|k: int|
                    0 <= k < predicates.len() ==> match find(
                        files[i].row_groups[j].columns,
                        encode_utf8((#[trigger] predicates[k]).column),
                    ) {
                        None => true,
                        Some(extent) => !lex_less(predicates[k].max, extent.min) && !lex_less(
                            extent.max,
                            predicates[k].min,
                        ),
                    }
            },
    decreases files.len(),
{
    let fewer = files.drop_last();
    let f = files.last();
    let before = candidates(fewer, predicates);
    let here = candidates_in(f.path, f.row_groups, predicates);
    if n < before.len() {
        law_query_sound(fewer, predicates, n);
        let (i, j) = choose|i: int, j: int|
            {
                &&& 0 <= i < fewer.len()
                &&& 0 <= j < fewer[i].row_groups.len()
                &&& candidates(fewer, predicates)[n] == (
                    fewer[i].path,
                    #[trigger] fewer[i].row_groups[j].row_group,
                )
                &&& forall|k: int|
                    0 <= k < predicates.len() ==> match find(
                        fewer[i].row_groups[j].columns,
                        encode_utf8((#[trigger] predicates[k]).column),
                    ) {
                        None => true,
                        Some(extent) => !lex_less(predicates[k].max, extent.min) && !lex_less(
                            extent.max,
                            predicates[k].min,
                        ),
                    }
            };
        assert(files[i] == fewer[i]);
        assert(candidates(files, predicates)[n] == (
            files[i].path,
            files[i].row_groups[j].row_group,
        ));
    } else {
        let j = lemma_candidates_in_sound(f.path, f.row_groups, predicates, n - before.len());
        let i = files.len() - 1;
        assert forall|k: int| 0 <= k < predicates.len() implies match find(
            files[i].row_groups[j].columns,
            encode_utf8((#[trigger] predicates[k]).column),
        ) {
            None => true,
            Some(extent) => !lex_less(predicates[k].max, extent.min) && !lex_less(
                extent.max,
                predicates[k].min,
            ),
        } by {
            assert(admits(f.row_groups[j], predicates[k]));
        }
        assert(candidates(files, predicates)[n] == (
            files[i].path,
            files[i].row_groups[j].row_group,
        ));
    }
}

proof fn lemma_candidates_in_sound(
    path: Seq<char>,
    groups: Seq<Group>,
    predicates: Seq<Condition>,
    n: int,
) -> (j: int)
    requires
        0 <= n < candidates_in(path, groups, predicates).len(),
    ensures
        0 <= j < groups.len(),
        admits_all(groups[j], predicates),
        candidates_in(path, groups, predicates)[n] == (path, groups[j].row_group),
    decreases groups.len(),
{
    let before = candidates_in(path, groups.drop_last(), predicates);
    if n < before.len() {
        lemma_candidates_in_sound(path, groups.drop_last(), predicates, n)
    } else {
        groups.len() - 1
    }
}

/// A query goes through the files in order, and in each through the row groups in order; each row
/// group gives its reference once or not at all.
pub proof fn law_query_order(
    files: Seq<FileGroups>,
    more: Seq<FileGroups>,
    path: Seq<char>,
    groups: Seq<Group>,
    group: Group,
    predicates: Seq<Condition>,
)
    ensures
        candidates(files + more, predicates) == candidates(files, predicates) + candidates(
            more,
            predicates,
        ),
        ({
            let shorter = seq![FileGroups { path, row_groups: groups }];
            let longer = seq![FileGroups { path, row_groups: groups.push(group) }];
            candidates(longer, predicates) == if admits_all(group, predicates) {
                candidates(shorter, predicates).push((path, group.row_group))
            } else {
                candidates(shorter, predicates)
            }
        }),
        candidates(seq![FileGroups { path, row_groups: Seq::empty() }], predicates) == Seq::<
            GroupRef,
        >::empty(),
        candidates(Seq::empty(), predicates) == Seq::<GroupRef>::empty(),
    decreases more.len(),
{
    lemma_one_file(path, groups, predicates);
    lemma_one_file(path, groups.push(group), predicates);
    lemma_one_file(path, Seq::empty(), predicates);
    assert(groups.push(group).drop_last() =~= groups);
    if more.len() == 0 {
        assert(files + more =~= files);
        assert(candidates(more, predicates) =~= Seq::empty());
        assert(candidates(files, predicates) + candidates(more, predicates) =~= candidates(
            files,
            predicates,
        ));
    } else {
        law_query_order(files, more.drop_last(), path, groups, group, predicates);
        assert((files + more).drop_last() =~= files + more.drop_last());
        assert(candidates(files + more, predicates) =~= candidates(files, predicates) + candidates(
            more,
            predicates,
        ));
    }
}

proof fn lemma_one_file(path: Seq<char>, groups: Seq<Group>, predicates: Seq<Condition>)
    ensures
        candidates(seq![FileGroups { path, row_groups: groups }], predicates) == candidates_in(
            path,
            groups,
            predicates,
        ),
{
    let one = seq![FileGroups { path, row_groups: groups }];
    assert(one.drop_last() =~= Seq::empty());
    assert(candidates(one.drop_last(), predicates) =~= Seq::empty());
    assert(candidates(one, predicates) =~= candidates_in(path, groups, predicates));
}

/// A row group is added behind those of the first file with its path, and nothing else changes; if
/// no file has the path, a new one is added behind all others, with this row group alone.
pub proof fn law_with_group(files: Seq<FileGroups>, path: Seq<char>, group: Group, i: int)
    requires
        0 <= i <= files.len(),
        forall|j: int| 0 <= j < i ==> (#[trigger] files[j]).path != path,
        i < files.len() ==> files[i].path == path,
    ensures
        with_group(files, path, group).take(i) == files.take(i),
        with_group(files, path, group)[i].path == path,
        i < files.len() ==> {
            &&& with_group(files, path, group).len() == files.len()
            &&& with_group(files, path, group)[i].row_groups == files[i].row_groups + seq![group]
            &&& with_group(files, path, group).skip(i + 1) == files.skip(i + 1)
        },
        i == files.len() ==> {
            &&& with_group(files, path, group).len() == files.len() + 1
            &&& with_group(files, path, group)[i].row_groups == seq![group]
        },
{
    let after = with_group(files, path, group);
    lemma_first_file(files, path, i);
    assert(after.take(i) =~= files.take(i));
    if i < files.len() {
        assert(after[i].row_groups =~= files[i].row_groups + seq![group]);
        assert(after.skip(i + 1) =~= files.skip(i + 1));
    }
}

proof fn lemma_first_file(files: Seq<FileGroups>, path: Seq<char>, i: int)
    requires
        0 <= i <= files.len(),
        forall|j: int| 0 <= j < i ==> (#[trigger] files[j]).path != path,
        i < files.len() ==> files[i].path == path,
    ensures
        file_index(files, path) == if i < files.len() {
            Some(i)
        } else {
            None
        },
    decreases files.len(),
{
    if files.len() > 0 {
        let fewer = files.drop_last();
        assert forall|j: int| 0 <= j < i && j < fewer.len() implies (#[trigger] fewer[j]).path
            != path by {
            assert(fewer[j] == files[j]);
        }
        if i == files.len() {
            assert(files[files.len() - 1].path != path);
            lemma_first_file(fewer, path, fewer.len() as int);
        } else {
            lemma_first_file(fewer, path, i);
        }
    }
}

/// What was recorded is found: a query right after a row group was added gives its reference,
/// unless the statistics that were given last for the column of some predicate lie wholly before
/// or wholly behind the predicate's range.
pub proof fn law_recorded_is_found(
    files: Seq<FileGroups>,
    path: Seq<char>,
    row_group: u32,
    columns: Columns,
    predicates: Seq<Condition>,
)
    requires
        forall|k: int, c: int|
            #![trigger predicates[k], columns[c]]
            0 <= k < predicates.len() && 0 <= c < columns.len() && columns[c].0 == encode_utf8(
                predicates[k].column,
            ) && (forall|d: int|
                c < d < columns.len() ==> (#[trigger] columns[d]).0 != columns[c].0)
                ==> !lex_less(predicates[k].max, columns[c].1.min) && !lex_less(
                columns[c].1.max,
                predicates[k].min,
            ),
    ensures
        candidates(
            with_group(files, path, Group { row_group, columns: collected(columns) }),
            predicates,
        ).contains((path, row_group)),
{
    let group = Group { row_group, columns: collected(columns) };
    let after = with_group(files, path, group);
    lemma_file_index(files, path);
    let i = match file_index(files, path) {
        Some(i) => i,
        None => files.len() as int,
    };
    let j = after[i].row_groups.len() - 1;
    assert(after[i].row_groups[j] == group);
    assert forall|k: int| 0 <= k < predicates.len() implies admits(
        group,
        #[trigger] predicates[k],
    ) by {
        let name = encode_utf8(predicates[k].column);
        let c = lemma_last_place(columns, name);
        law_collected(columns, name, c);
        if c >= 0 {
            assert(columns[c].0 == encode_utf8(predicates[k].column));
        }
    }
    law_candidates_complete(after, predicates, i, j);
}

proof fn lemma_last_place(columns: Columns, name: Seq<u8>) -> (i: int)
    ensures
        -1 <= i < columns.len(),
        i >= 0 ==> columns[i].0 == name,
        forall|j: int| i < j < columns.len() ==> (#[trigger] columns[j]).0 != name,
    decreases columns.len(),
{
    if columns.len() == 0 {
        -1
    } else if columns.last().0 == name {
        columns.len() - 1
    } else {
        let i = lemma_last_place(columns.drop_last(), name);
        assert forall|j: int| i < j < columns.len() implies (#[trigger] columns[j]).0 != name by {
            if j < columns.len() - 1 {
                assert(columns.drop_last()[j].0 != name);
            }
        }
        i
    }
}

/// The model holds what the types hold, field by field, element by element.
pub proof fn law_views(
    c: ColumnStats,
    g: RowGroupStats,
    f: FileStats,
    p: RangePredicate,
    r: RowGroupRef,
    m: StatsManifest,
)
    ensures
        c@.min == c.min@ && c@.max == c.max@ && c@.null_count == c.null_count,
        g@.row_group == g.row_group && g@.columns.len() == g.columns@.len(),
        forall|i: int|
            0 <= i < g.columns@.len() ==> (#[trigger] g@.columns[i]).0 == encode_utf8(
                g.columns@[i].0@,
            ) && g@.columns[i].1 == g.columns@[i].1@,
        f@.path == f.path@ && f@.row_groups.len() == f.row_groups@.len(),
        forall|i: int|
            0 <= i < f.row_groups@.len() ==> #[trigger] f@.row_groups[i] == f.row_groups@[i]@,
        p@.column == p.column@ && p@.min == p.min@ && p@.max == p.max@,
        r@.0 == r.file@ && r@.1 == r.row_group,
        m@.len() == m.files@.len(),
        forall|i: int| 0 <= i < m.files@.len() ==> #[trigger] m@[i] == m.files@[i]@,
{
}

/// Lists in the model hold what lists in memory hold, element by element.
pub proof fn law_list_views(
    refs: Seq<RowGroupRef>,
    predicates: Seq<RangePredicate>,
    columns: Seq<(String, ColumnStats)>,
)
    ensures
        refs_view(refs).len() == refs.len(),
        forall|i: int|
            0 <= i < refs.len() ==> #[trigger] refs_view(refs)[i] == (
                refs[i].file@,
                refs[i].row_group,
            ),
        conditions_view(predicates).len() == predicates.len(),
        forall|i: int|
            0 <= i < predicates.len() ==> #[trigger] conditions_view(predicates)[i]
                == predicates[i]@,
        columns_view(columns).len() == columns.len(),
        forall|i: int|
            0 <= i < columns.len() ==> #[trigger] columns_view(columns)[i] == (
                encode_utf8(columns[i].0@),
                columns[i].1@,
            ),
{
}

/// The number of row groups adds up file by file.
pub proof fn law_sum_groups(files: Seq<FileGroups>, more: Seq<FileGroups>)
    ensures
        sum_groups(Seq::empty()) == 0,
        files.len() == 1 ==> sum_groups(files) == files[0].row_groups.len(),
        sum_groups(files + more) == sum_groups(files) + sum_groups(more),
    decreases more.len(),
{
    if files.len() == 1 {
        assert(files.drop_last() =~= Seq::empty());
        assert(sum_groups(files.drop_last()) == 0);
    }
    if more.len() == 0 {
        assert(files + more =~= files);
    } else {
        assert((files + more).drop_last() =~= files + more.drop_last());
        law_sum_groups(files, more.drop_last());
    }
}

/// The first place among some files is the first among all.
proof fn lemma_file_index_stays(files: Seq<FileGroups>, path: Seq<char>, n: int)
    requires
        0 <= n <= files.len(),
        file_index(files.take(n), path) is Some,
    ensures
        file_index(files, path) == file_index(files.take(n), path),
    decreases files.len(),
{
    if n == files.len() {
        assert(files.take(n) =~= files);
    } else {
        assert(files.drop_last().take(n) =~= files.take(n));
        lemma_file_index_stays(files.drop_last(), path, n);
    }
}

/// What the first place of a file is.
proof fn lemma_file_index(files: Seq<FileGroups>, path: Seq<char>)
    ensures
        match file_index(files, path) {
            Some(i) => 0 <= i < files.len() && files[i].path == path,
            None => forall|j: int| 0 <= j < files.len() ==> (#[trigger] files[j]).path != path,
        },
    decreases files.len(),
{
    if files.len() > 0 {
        let before = files.drop_last();
        lemma_file_index(before, path);
        if file_index(files, path) is None {
            assert forall|j: int| 0 <= j < files.len() implies (#[trigger] files[j]).path
                != path by {
                if j < before.len() {
                    assert(before[j].path != path);
                }
            }
        }
    }
}

proof fn lemma_sum_of_update(files: Seq<FileGroups>, i: int, f: FileGroups)
    requires
        0 <= i < files.len(),
    ensures
        sum_groups(files.update(i, f)) == sum_groups(files) - files[i].row_groups.len()
            + f.row_groups.len(),
    decreases files.len(),
{
    let after = files.update(i, f);
    if i == files.len() - 1 {
        assert(after.drop_last() =~= files.drop_last());
    } else {
        assert(after.drop_last() =~= files.drop_last().update(i, f));
        lemma_sum_of_update(files.drop_last(), i, f);
    }
}

/// One more row group.
proof fn lemma_with_group(files: Seq<FileGroups>, path: Seq<char>, group: Group)
    requires
        forall|i: int, j: int|
            0 <= i < j < files.len() ==> (#[trigger] files[i]).path != (#[trigger] files[j]).path,
    ensures
        ({
            let after = with_group(files, path, group);
            &&& sum_groups(after) == sum_groups(files) + 1
            &&& after.len() == if file_index(files, path) is Some {
                files.len()
            } else {
                files.len() + 1
            }
            &&& forall|i: int, j: int|
                0 <= i < j < after.len() ==> (#[trigger] after[i]).path != (
                #[trigger] after[j]).path
            &&& forall|i: int|
                0 <= i < after.len() ==> (#[trigger] after[i]).row_groups == if i >= files.len() {
                    seq![group]
                } else if files[i].path == path {
                    files[i].row_groups.push(group)
                } else {
                    files[i].row_groups
                }
            &&& forall|i: int|
                0 <= i < after.len() ==> (#[trigger] after[i]).path == if i >= files.len() {
                    path
                } else {
                    files[i].path
                }
        }),
{
    let after = with_group(files, path, group);
    lemma_file_index(files, path);
    match file_index(files, path) {
        Some(i) => {
            lemma_sum_of_update(files, i, after[i]);
            assert forall|j: int| 0 <= j < after.len() && j != i implies files[j].path != path by {
                if j < i {
                    assert(files[j].path != files[i].path);
                } else {
                    assert(files[i].path != files[j].path);
                }
            }
        },
        None => {
            assert(after.drop_last() =~= files);
        },
    }
}

/// Adding row groups one by one gives as many as were added and one file for each different path,
/// with the row groups that were added with it in the order in which they were.
pub proof fn law_files_of(adds: Seq<(Seq<char>, Group)>)
    ensures
        sum_groups(files_of(adds)) == adds.len(),
        paths_of(adds).finite(),
        files_of(adds).len() == paths_of(adds).len(),
        forall|i: int, j: int|
            0 <= i < j < files_of(adds).len() ==> (#[trigger] files_of(adds)[i]).path != (
            #[trigger] files_of(adds)[j]).path,
        forall|i: int|
            0 <= i < files_of(adds).len() ==> paths_of(adds).contains(
                (#[trigger] files_of(adds)[i]).path,
            ),
        forall|i: int|
            0 <= i < files_of(adds).len() ==> (#[trigger] files_of(adds)[i]).row_groups
                == groups_under(adds, files_of(adds)[i].path),
    decreases adds.len(),
{
    let paths = adds.map_values(|a: (Seq<char>, Group)| a.0);
    if adds.len() == 0 {
        assert(paths_of(adds) =~= Set::empty());
    } else {
        let earlier = adds.drop_last();
        let before = files_of(earlier);
        let after = files_of(adds);
        let (path, group) = adds.last();
        law_files_of(earlier);
        lemma_with_group(before, path, group);
        lemma_file_index(before, path);
        lemma_paths_of(adds);
        lemma_groups_under(earlier, path);
        lemma_same_paths(before, paths_of(earlier));
        assert forall|i: int| 0 <= i < after.len() implies (#[trigger] after[i]).row_groups
            == groups_under(adds, after[i].path) by {
            if i < before.len() {
                assert(before[i].row_groups == groups_under(earlier, before[i].path));
            } else {
                assert(groups_under(earlier, path).push(group) =~= seq![group]);
            }
        }
        assert forall|i: int| 0 <= i < after.len() implies paths_of(adds).contains(
            (#[trigger] after[i]).path,
        ) by {
            if i < before.len() {
                assert(paths_of(earlier).contains(before[i].path));
            }
        }
    }
}

/// The paths of one more row group.
proof fn lemma_paths_of(adds: Seq<(Seq<char>, Group)>)
    requires
        adds.len() > 0,
    ensures
        paths_of(adds) == paths_of(adds.drop_last()).insert(adds.last().0),
{
    let paths = adds.map_values(|a: (Seq<char>, Group)| a.0);
    let earlier = adds.drop_last().map_values(|a: (Seq<char>, Group)| a.0);
    assert(paths =~= earlier.push(adds.last().0));
    assert forall|p: Seq<char>| #[trigger] paths.contains(p) <==> earlier.contains(p) || p
        == adds.last().0 by {
        if earlier.contains(p) {
            let k = choose|k: int| 0 <= k < earlier.len() && earlier[k] == p;
            assert(paths[k] == p);
        }
        if p == adds.last().0 {
            assert(paths[paths.len() - 1] == p);
        }
    }
    assert(paths_of(adds) =~= paths_of(adds.drop_last()).insert(adds.last().0));
}

/// A path with which nothing was added has no row groups.
proof fn lemma_groups_under(adds: Seq<(Seq<char>, Group)>, path: Seq<char>)
    ensures
        !paths_of(adds).contains(path) ==> groups_under(adds, path) == Seq::<Group>::empty(),
    decreases adds.len(),
{
    if adds.len() > 0 {
        lemma_paths_of(adds);
        lemma_groups_under(adds.drop_last(), path);
    }
}

/// Files whose paths differ, are among `paths` and are as many, have all of them.
proof fn lemma_same_paths(files: Seq<FileGroups>, paths: Set<Seq<char>>)
    requires
        paths.finite(),
        files.len() == paths.len(),
        forall|i: int, j: int|
            0 <= i < j < files.len() ==> (#[trigger] files[i]).path != (#[trigger] files[j]).path,
        forall|i: int| 0 <= i < files.len() ==> paths.contains((#[trigger] files[i]).path),
    ensures
        forall|path: Seq<char>| #[trigger]
            paths.contains(path) ==> file_index(files, path) is Some,
    decreases files.len(),
{
    if files.len() > 0 {
        let before = files.drop_last();
        let fewer = paths.remove(files.last().path);
        assert forall|i: int| 0 <= i < before.len() implies fewer.contains(
            (#[trigger] before[i]).path,
        ) by {
            assert(paths.contains(files[i].path));
            assert(files[i].path != files[files.len() - 1].path);
        }
        assert(paths.contains(files[files.len() - 1].path));
        lemma_same_paths(before, fewer);
        assert forall|path: Seq<char>| #[trigger] paths.contains(path) implies file_index(
            files,
            path,
        ) is Some by {
            if path != files.last().path {
                assert(fewer.contains(path));
            }
        }
    }
}

proof fn lemma_sum_groups_grows(files: Seq<FileGroups>, i: int)
    requires
        0 <= i <= files.len(),
    ensures
        sum_groups(files.take(i)) <= sum_groups(files),
    decreases files.len(),
{
    if i == files.len() {
        assert(files.take(i) =~= files);
    } else {
        lemma_sum_groups_grows(files.drop_last(), i);
        assert(files.drop_last().take(i) =~= files.take(i));
    }
}

// ---------------------------------------------------------------------------
// Columns
// ---------------------------------------------------------------------------

/// Puts a column into a sorted list, in the place of one with the same name.
fn put_column(columns: &mut Vec<(String, ColumnStats)>, name: String, stats: ColumnStats)
    requires
        ascending(columns_view(old(columns)@)),
    ensures
        columns_view(final(columns)@) == put(
            columns_view(old(columns)@),
            encode_utf8(name@),
            stats@,
        ),
{
    let ghost before = columns_view(columns@);
    let ghost key = encode_utf8(name@);
    let ghost entry = (key, stats@);
    let bytes = text_bytes(name.as_str());
    let mut i: usize = 0;
    let mut there = false;
    while i < columns.len()
        invariant_except_break
            !there,
        invariant
            i <= columns@.len(),
            before == columns_view(columns@),
            ascending(before),
            bytes@ == key,
            forall|j: int| 0 <= j < i ==> lex_less((#[trigger] before[j]).0, key),
        ensures
            i < columns@.len() ==> !lex_less(before[i as int].0, key),
            there == (i < columns@.len() && before[i as int].0 == key),
        decreases columns@.len() - i,
    {
        assert(before[i as int].0 == encode_utf8(columns@[i as int].0@));
        match compare_bytes(text_bytes(columns[i].0.as_str()), bytes) {
            KeyOrder::Less => {
                i += 1;
            },
            KeyOrder::Equal => {
                proof {
                    lemma_lex_irreflexive(key);
                }
                there = true;
                break;
            },
            KeyOrder::Greater => {
                proof {
                    lemma_lex_asymmetric(key, before[i as int].0);
                }
                break;
            },
        }
    }
    proof {
        lemma_put_at(before, key, stats@, i as int);
    }
    if there {
        columns.set(i, (name, stats));
        assert(columns_view(columns@) =~= before.update(i as int, entry));
    } else {
        columns.insert(i, (name, stats));
        assert(columns_view(columns@) =~= before.insert(i as int, entry));
    }
}

/// Collects columns from a list: of a name that occurs twice, the last stays.
fn collect_columns(columns: Vec<(String, ColumnStats)>) -> (r: Vec<(String, ColumnStats)>)
    ensures
        columns_view(r@) == collected(columns_view(columns@)),
{
    let ghost all = columns_view(columns@);
    let mut out: Vec<(String, ColumnStats)> = Vec::new();
    let mut rest: Vec<(String, ColumnStats)> = columns;
    let n: usize = rest.len();
    let mut i: usize = 0;
    assert(all.take(0) =~= Seq::empty());
    assert(columns_view(out@) =~= Seq::empty());
    assert(all.skip(0) =~= all);
    while i < n
        invariant
            i <= n == all.len(),
            columns_view(out@) == collected(all.take(i as int)),
            columns_view(rest@) == all.skip(i as int),
            rest@.len() == n - i,
        decreases n - i,
    {
        let ghost before = rest@;
        proof {
            lemma_collected_sorted(all.take(i as int));
            assert(columns_view(rest@)[0] == all[i as int]);
            assert(all.take(i + 1).drop_last() =~= all.take(i as int));
        }
        let (name, stats) = rest.remove(0);
        assert(columns_view(rest@) =~= all.skip(i + 1)) by {
            assert(rest@ =~= before.remove(0));
            assert forall|j: int| 0 <= j < rest@.len() implies columns_view(rest@)[j] == all.skip(
                i + 1,
            )[j] by {
                assert(columns_view(before)[j + 1] == all.skip(i as int)[j + 1]);
            }
        }
        put_column(&mut out, name, stats);
        i += 1;
    }
    assert(all.take(i as int) =~= all);
    out
}

// ---------------------------------------------------------------------------
// Manifest
// ---------------------------------------------------------------------------

/// The conditions of a list in memory.
pub open spec fn conditions_view(predicates: Seq<RangePredicate>) -> Seq<Condition> {
    predicates.map_values(|p: RangePredicate| p@)
}

/// The conditions of a list of references.
spec fn ref_conditions(predicates: Seq<&RangePredicate>) -> Seq<Condition> {
    predicates.map_values(|p: &RangePredicate| p@)
}

impl RowGroupStats {
    /// Statistics of a row group from a list of columns, in any order. Of a column that is given
    /// twice, the last statistics stay.
    pub fn from_columns(row_group: u32, columns: Vec<(String, ColumnStats)>) -> (g: Self)
        ensures
            g@ == (Group { row_group, columns: collected(columns_view(columns@)) }),
    {
        RowGroupStats { row_group, columns: collect_columns(columns) }
    }

    /// Whether the row group can hold rows that meet a predicate.
    fn can_match(&self, p: &RangePredicate) -> (r: bool)
        ensures
            r == admits(self@, p@),
    {
        let name = text_bytes(p.column.as_str());
        let ghost all = self@.columns;
        let mut i: usize = 0;
        assert(all.skip(0) =~= all);
        while i < self.columns.len()
            invariant
                i <= self.columns@.len(),
                all == columns_view(self.columns@),
                name@ == encode_utf8(p.column@),
                find(all, name@) == find(all.skip(i as int), name@),
            decreases self.columns@.len() - i,
        {
            let ghost rest = all.skip(i as int);
            let stats: &ColumnStats = &self.columns[i].1;
            assert(rest[0] == (encode_utf8(self.columns@[i as int].0@), stats@));
            assert(rest.drop_first() =~= all.skip(i + 1));
            match compare_bytes(text_bytes(self.columns[i].0.as_str()), name) {
                KeyOrder::Equal => {
                    return ranges_overlap(stats, p);
                },
                _ => {},
            }
            i += 1;
        }
        true
    }
}

/// Whether a column's range overlaps that of a predicate.
fn ranges_overlap(stats: &ColumnStats, p: &RangePredicate) -> (r: bool)
    ensures
        r == overlaps(stats@, p@),
{
    match compare_bytes(stats.min.as_slice(), p.max.as_slice()) {
        KeyOrder::Greater => {
            return false;
        },
        _ => {},
    }
    match compare_bytes(stats.max.as_slice(), p.min.as_slice()) {
        KeyOrder::Less => false,
        _ => true,
    }
}

impl StatsManifest {
    /// An empty manifest.
    pub fn new() -> (m: Self)
        ensures
            m.version == 1,
            m@ == Seq::<FileGroups>::empty(),
    {
        let m = StatsManifest { version: 1, files: Vec::new() };
        assert(m@ =~= Seq::empty());
        m
    }

    /// Adds the statistics of a row group to its file, which is added if it is new. Of a column
    /// that is given twice, the last statistics stay.
    pub fn add_row_group(
        &mut self,
        file_path: &str,
        row_group: u32,
        columns: Vec<(String, ColumnStats)>,
    )
        ensures
            final(self).version == old(self).version,
            final(self)@ == with_group(
                old(self)@,
                file_path@,
                Group { row_group, columns: collected(columns_view(columns@)) },
            ),
    {
        let stats = RowGroupStats::from_columns(row_group, columns);
        let ghost before = self@;
        let ghost group = stats@;
        if let Some(i) = self.find_file(file_path) {
            self.files[i].row_groups.push(stats);
            proof {
                let f = self.files@[i as int];
                assert(f@.row_groups =~= before[i as int].row_groups.push(group));
                assert(self@ =~= with_group(before, file_path@, group));
            }
        } else {
            let mut row_groups: Vec<RowGroupStats> = Vec::new();
            row_groups.push(stats);
            let file = FileStats { path: String::from_str(file_path), row_groups };
            assert(file@.row_groups =~= seq![group]);
            self.files.push(file);
            assert(self@ =~= with_group(before, file_path@, group));
        }
    }

    /// The first place of a file.
    fn find_file(&self, path: &str) -> (r: Option<usize>)
        ensures
            match r {
                Some(i) => i < self.files@.len() && file_index(self@, path@) == Some(i as int),
                None => file_index(self@, path@) is None,
            },
    {
        let ghost files = self@;
        let mut i: usize = 0;
        assert(files.take(0) =~= Seq::empty());
        while i < self.files.len()
            invariant
                i <= self.files@.len(),
                files == self@,
                file_index(files.take(i as int), path@) is None,
            decreases self.files@.len() - i,
        {
            assert(files.take(i + 1).drop_last() =~= files.take(i as int));
            assert(files.take(i + 1).last().path == self.files@[i as int].path@);
            if same_text(self.files[i].path.as_str(), path) {
                proof {
                    lemma_file_index_stays(files, path@, i + 1);
                }
                return Some(i);
            }
            i += 1;
        }
        assert(files.take(i as int) =~= files);
        None
    }

    /// The row groups that can hold rows that meet all predicates, in order. No row group that
    /// holds such rows is left out.
    pub fn query_overlap(&self, predicates: &[RangePredicate]) -> (r: Vec<RowGroupRef>)
        ensures
            refs_view(r@) == candidates(self@, conditions_view(predicates@)),
    {
        let mut list: Vec<&RangePredicate> = Vec::new();
        let mut i: usize = 0;
        while i < predicates.len()
            invariant
                i <= predicates@.len(),
                list@.len() == i,
                forall|j: int| 0 <= j < i ==> (#[trigger] list@[j])@ == predicates@[j]@,
            decreases predicates@.len() - i,
        {
            list.push(&predicates[i]);
            i += 1;
        }
        assert(ref_conditions(list@) =~= conditions_view(predicates@));
        self.find_candidates(&list)
    }

    /// The row groups that can hold rows that meet a predicate.
    pub fn query_overlap_single(&self, predicate: &RangePredicate) -> (r: Vec<RowGroupRef>)
        ensures
            refs_view(r@) == candidates(self@, seq![predicate@]),
    {
        let mut list: Vec<&RangePredicate> = Vec::new();
        list.push(predicate);
        assert(ref_conditions(list@) =~= seq![predicate@]);
        self.find_candidates(&list)
    }

    /// The row groups that can hold rows that meet all predicates.
    fn find_candidates(&self, predicates: &Vec<&RangePredicate>) -> (r: Vec<RowGroupRef>)
        ensures
            refs_view(r@) == candidates(self@, ref_conditions(predicates@)),
    {
        let ghost files = self@;
        let ghost conditions = ref_conditions(predicates@);
        let mut out: Vec<RowGroupRef> = Vec::new();
        let mut i: usize = 0;
        assert(files.take(0) =~= Seq::empty());
        assert(refs_view(out@) =~= Seq::empty());
        while i < self.files.len()
            invariant
                i <= self.files@.len(),
                files == self@,
                conditions == ref_conditions(predicates@),
                refs_view(out@) == candidates(files.take(i as int), conditions),
            decreases self.files@.len() - i,
        {
            let file: &FileStats = &self.files[i];
            let ghost done = refs_view(out@);
            let ghost groups = file@.row_groups;
            let mut j: usize = 0;
            assert(groups.take(0) =~= Seq::empty());
            assert(done + candidates_in(file@.path, groups.take(0), conditions) =~= done);
            while j < file.row_groups.len()
                invariant
                    j <= file.row_groups@.len(),
                    groups == file@.row_groups,
                    conditions == ref_conditions(predicates@),
                    refs_view(out@) == done + candidates_in(
                        file@.path,
                        groups.take(j as int),
                        conditions,
                    ),
                decreases file.row_groups@.len() - j,
            {
                let group: &RowGroupStats = &file.row_groups[j];
                assert(groups.take(j + 1).drop_last() =~= groups.take(j as int));
                assert(groups.take(j + 1).last() == group@);
                if can_match_all(group, predicates) {
                    let ghost prev = out@;
                    out.push(RowGroupRef { file: file.path.clone(), row_group: group.row_group });
                    assert(refs_view(out@) =~= refs_view(prev).push(
                        (file@.path, group@.row_group),
                    ));
                    assert(refs_view(out@) =~= done + candidates_in(
                        file@.path,
                        groups.take(j + 1),
                        conditions,
                    ));
                }
                j += 1;
            }
            assert(groups.take(j as int) =~= groups);
            assert(files.take(i + 1).drop_last() =~= files.take(i as int));
            assert(files.take(i + 1).last() == file@);
            i += 1;
        }
        assert(files.take(i as int) =~= files);
        out
    }

    /// Number of row groups in all files.
    pub fn total_row_groups(&self) -> (n: usize)
        requires
            sum_groups(self@) <= usize::MAX,
        ensures
            n as nat == sum_groups(self@),
    {
        let mut sum: usize = 0;
        let mut i: usize = 0;
        assert(self@.take(0) =~= Seq::empty());
        while i < self.files.len()
            invariant
                i <= self.files@.len(),
                sum as nat == sum_groups(self@.take(i as int)),
                sum_groups(self@) <= usize::MAX,
            decreases self.files@.len() - i,
        {
            proof {
                assert(self@.take(i + 1).drop_last() =~= self@.take(i as int));
                assert(self@[i as int] == self.files@[i as int]@);
                lemma_sum_groups_grows(self@, i + 1);
            }
            sum = sum + self.files[i].row_groups.len();
            i += 1;
        }
        assert(self@.take(i as int) =~= self@);
        sum
    }

    /// Number of files.
    pub fn file_count(&self) -> (n: usize)
        ensures
            n as nat == self@.len(),
    {
        self.files.len()
    }
}

/// Whether a row group can hold rows that meet all predicates.
fn can_match_all(group: &RowGroupStats, predicates: &Vec<&RangePredicate>) -> (r: bool)
    ensures
        r == admits_all(group@, ref_conditions(predicates@)),
{
    let ghost conditions = ref_conditions(predicates@);
    let mut i: usize = 0;
    while i < predicates.len()
        invariant
            i <= predicates@.len(),
            conditions == ref_conditions(predicates@),
            forall|j: int| 0 <= j < i ==> admits(group@, #[trigger] conditions[j]),
        decreases predicates@.len() - i,
    {
        assert(conditions[i as int] == predicates@[i as int]@);
        if !group.can_match(predicates[i]) {
            return false;
        }
        i += 1;
    }
    true
}

impl Default for StatsManifest {
    fn default() -> (m: Self)
        ensures
            m.version == 1,
            m@ == Seq::<FileGroups>::empty(),
    {
        StatsManifest::new()
    }
}

/// Builds a manifest step by step.
pub struct StatsManifestBuilder {
    manifest: StatsManifest,
}

impl View for StatsManifestBuilder {
    type V = Seq<FileGroups>;

    closed spec fn view(&self) -> Seq<FileGroups> {
        self.manifest@
    }
}

impl StatsManifestBuilder {
    /// The version of the manifest.
    pub closed spec fn version(&self) -> u32 {
        self.manifest.version
    }

    /// Starts with an empty manifest.
    pub fn new() -> (b: Self)
        ensures
            b.version() == 1,
            b@ == Seq::<FileGroups>::empty(),
    {
        StatsManifestBuilder { manifest: StatsManifest::new() }
    }

    /// Adds the statistics of a row group, as `StatsManifest::add_row_group` does.
    pub fn add_row_group(
        self,
        file_path: &str,
        row_group: u32,
        columns: Vec<(String, ColumnStats)>,
    ) -> (b: Self)
        ensures
            b.version() == self.version(),
            b@ == with_group(
                self@,
                file_path@,
                Group { row_group, columns: collected(columns_view(columns@)) },
            ),
    {
        let mut manifest: StatsManifest = self.manifest;
        manifest.add_row_group(file_path, row_group, columns);
        StatsManifestBuilder { manifest }
    }

    /// The manifest.
    pub fn build(self) -> (m: StatsManifest)
        ensures
            m.version == self.version(),
            m@ == self@,
    {
        self.manifest
    }
}

impl Default for StatsManifestBuilder {
    fn default() -> (b: Self)
        ensures
            b.version() == 1,
            b@ == Seq::<FileGroups>::empty(),
    {
        StatsManifestBuilder::new()
    }
}

} // verus!
