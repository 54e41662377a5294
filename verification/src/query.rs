use vstd::prelude::*;
use vstd::utf8::is_ascii_chars;
use core::cmp::Ordering;

use crate::mapping::{MadisonMapping, MappingEntry};
use crate::types::{MadisonOutputRecord, MadisonOutputRecordView};
use crate::typeset::TypeSet;
use crate::vercmp::{version_cmp, lex_le, compare_version_strings, str_lex_le, lemma_lex_total};
use crate::table::table_layout;
use crate::render::{trimmed_table, line_format_ok, trim_join, lemma_trimmed_table_empty,
    lemma_trimmed_table_format};

verus! {

// ---------------------------------------------------------------------------
// Rows and their order
// ---------------------------------------------------------------------------

/// One stored row, reduced to the character sequences the query works on.
#[verifier::ext_equal]
pub ghost struct RowView {
    pub package: Seq<char>,
    pub group_key: Seq<char>,
    pub version: Seq<char>,
    pub types: Seq<Seq<char>>,
}

pub open spec fn row_view(e: MappingEntry) -> RowView {
    RowView {
        package: e.package@,
        group_key: e.group_key@,
        version: e.version@,
        types: e.types.sview(),
    }
}

pub open spec fn rows_of(s: Seq<MappingEntry>) -> Seq<RowView> {
    s.map_values(|e: MappingEntry| row_view(e))
}

/// Report order: ascending by version under the external comparator, ties
/// broken by the group key ascending lexicographically.
pub open spec fn row_le(a: RowView, b: RowView) -> bool {
    ||| version_cmp(a.version, b.version) == Ordering::Less
    ||| (version_cmp(a.version, b.version) == Ordering::Equal && lex_le(a.group_key, b.group_key))
}

/// The strict reverse: what makes a row shift right during insertion.
pub open spec fn row_gt(a: RowView, b: RowView) -> bool {
    ||| version_cmp(a.version, b.version) == Ordering::Greater
    ||| (version_cmp(a.version, b.version) == Ordering::Equal && !lex_le(a.group_key, b.group_key))
}

pub open spec fn sorted_rows(s: Seq<RowView>) -> bool {
    forall|i: int| 0 <= i && i + 1 < s.len() ==> row_le(#[trigger] s[i], s[i + 1])
}

/// Whether a row belongs to one package's answer under an optional group
/// key filter.
pub open spec fn row_matches(r: RowView, package: Seq<char>, filter: Option<Seq<char>>) -> bool {
    &&& r.package == package
    &&& match filter {
        Option::Some(f) => r.group_key == f,
        Option::None => true,
    }
}

/// The rows kept for one package, in storage order.
pub open spec fn filtered_rows(
    s: Seq<RowView>,
    package: Seq<char>,
    filter: Option<Seq<char>>,
) -> Seq<RowView>
    decreases s.len(),
{
    if s.len() == 0 {
        Seq::empty()
    } else {
        let pre = filtered_rows(s.drop_last(), package, filter);
        if row_matches(s.last(), package, filter) {
            pre.push(s.last())
        } else {
            pre
        }
    }
}

/// Stable insertion into a sorted row sequence.
pub open spec fn spec_insert_row(s: Seq<RowView>, x: RowView) -> Seq<RowView>
    decreases s.len(),
{
    if s.len() == 0 {
        seq![x]
    } else if row_gt(s.last(), x) {
        spec_insert_row(s.drop_last(), x).push(s.last())
    } else {
        s.push(x)
    }
}

/// Stable insertion sort of a row sequence.
pub open spec fn spec_sort_rows(s: Seq<RowView>) -> Seq<RowView>
    decreases s.len(),
{
    if s.len() == 0 {
        Seq::empty()
    } else {
        spec_insert_row(spec_sort_rows(s.drop_last()), s.last())
    }
}

// ---------------------------------------------------------------------------
// Lemmas about the spec-level filter and sort
// ---------------------------------------------------------------------------

pub proof fn lemma_insert_row_len(s: Seq<RowView>, x: RowView)
    ensures
        spec_insert_row(s, x).len() == s.len() + 1,
    decreases s.len(),
{
    if s.len() != 0 && row_gt(s.last(), x) {
        lemma_insert_row_len(s.drop_last(), x);
    }
}

pub proof fn lemma_sort_rows_len(s: Seq<RowView>)
    ensures
        spec_sort_rows(s).len() == s.len(),
    decreases s.len(),
{
    if s.len() != 0 {
        lemma_sort_rows_len(s.drop_last());
        lemma_insert_row_len(spec_sort_rows(s.drop_last()), s.last());
    }
}

pub proof fn lemma_insert_row_contains(s: Seq<RowView>, x: RowView, y: RowView)
    ensures
        spec_insert_row(s, x).contains(y) <==> (s.contains(y) || y == x),
    decreases s.len(),
{
    if s.len() == 0 {
        assert(spec_insert_row(s, x)[0] == x);
        if spec_insert_row(s, x).contains(y) {
            let i = choose|i: int|
                0 <= i < spec_insert_row(s, x).len() && spec_insert_row(s, x)[i] == y;
            assert(i == 0);
        }
    } else if row_gt(s.last(), x) {
        lemma_insert_row_contains(s.drop_last(), x, y);
        let t = spec_insert_row(s.drop_last(), x);
        lemma_insert_row_len(s.drop_last(), x);
        if spec_insert_row(s, x).contains(y) {
            let i = choose|i: int|
                0 <= i < spec_insert_row(s, x).len() && spec_insert_row(s, x)[i] == y;
            if i < t.len() {
                assert(t[i] == y);
            } else {
                assert(y == s.last());
                assert(s[s.len() - 1] == y);
            }
        }
        if s.contains(y) {
            let i = choose|i: int| 0 <= i < s.len() && s[i] == y;
            if i < s.len() - 1 {
                assert(s.drop_last()[i] == y);
                assert(t.contains(y));
                let j = choose|j: int| 0 <= j < t.len() && t[j] == y;
                assert(t.push(s.last())[j] == y);
            } else {
                assert(t.push(s.last())[t.len() as int] == y);
            }
        }
        if y == x {
            assert(t.contains(y));
            let j = choose|j: int| 0 <= j < t.len() && t[j] == y;
            assert(t.push(s.last())[j] == y);
        }
    } else {
        if spec_insert_row(s, x).contains(y) {
            let i = choose|i: int| 0 <= i < s.push(x).len() && s.push(x)[i] == y;
            if i < s.len() {
                assert(s[i] == y);
            }
        }
        if s.contains(y) {
            let i = choose|i: int| 0 <= i < s.len() && s[i] == y;
            assert(s.push(x)[i] == y);
        }
        if y == x {
            assert(s.push(x)[s.len() as int] == y);
        }
    }
}

pub proof fn lemma_sort_rows_contains(s: Seq<RowView>, y: RowView)
    ensures
        spec_sort_rows(s).contains(y) <==> s.contains(y),
    decreases s.len(),
{
    if s.len() != 0 {
        lemma_sort_rows_contains(s.drop_last(), y);
        lemma_insert_row_contains(spec_sort_rows(s.drop_last()), s.last(), y);
        if spec_sort_rows(s).contains(y) {
            if s.drop_last().contains(y) {
                let i = choose|i: int| 0 <= i < s.drop_last().len() && s.drop_last()[i] == y;
                assert(s[i] == y);
            } else {
                assert(s[s.len() - 1] == y);
            }
        }
        if s.contains(y) {
            let i = choose|i: int| 0 <= i < s.len() && s[i] == y;
            if i < s.len() - 1 {
                assert(s.drop_last()[i] == y);
            }
        }
    }
}

/// Whatever the filter keeps came from the input and matches.
pub proof fn lemma_filtered_sub(
    s: Seq<RowView>,
    package: Seq<char>,
    filter: Option<Seq<char>>,
    y: RowView,
)
    requires
        filtered_rows(s, package, filter).contains(y),
    ensures
        s.contains(y),
        row_matches(y, package, filter),
    decreases s.len(),
{
    if s.len() != 0 {
        let pre = filtered_rows(s.drop_last(), package, filter);
        if row_matches(s.last(), package, filter) {
            let i = choose|i: int| 0 <= i < pre.push(s.last()).len() && pre.push(s.last())[i] == y;
            if i < pre.len() {
                assert(pre[i] == y);
                lemma_filtered_sub(s.drop_last(), package, filter, y);
                let j = choose|j: int| 0 <= j < s.drop_last().len() && s.drop_last()[j] == y;
                assert(s[j] == y);
            } else {
                assert(y == s.last());
                assert(s[s.len() - 1] == y);
            }
        } else {
            lemma_filtered_sub(s.drop_last(), package, filter, y);
            let j = choose|j: int| 0 <= j < s.drop_last().len() && s.drop_last()[j] == y;
            assert(s[j] == y);
        }
    }
}

/// A package absent from the rows is filtered to nothing.
pub proof fn lemma_filtered_absent(s: Seq<RowView>, package: Seq<char>, filter: Option<Seq<char>>)
    requires
        forall|i: int| 0 <= i < s.len() ==> (#[trigger] s[i]).package != package,
    ensures
        filtered_rows(s, package, filter) == Seq::<RowView>::empty(),
    decreases s.len(),
{
    if s.len() != 0 {
        assert(s[s.len() - 1] == s.last());
        assert(forall|i: int|
            0 <= i < s.drop_last().len() ==> (#[trigger] s.drop_last()[i]).package != package);
        lemma_filtered_absent(s.drop_last(), package, filter);
    }
}

/// Where the insertion point is known, the inserted sequence is the split.
proof fn lemma_insert_row_at(s: Seq<RowView>, x: RowView, p: int)
    requires
        0 <= p <= s.len(),
        forall|k: int| p <= k < s.len() ==> row_gt(#[trigger] s[k], x),
        p > 0 ==> !row_gt(s[p - 1], x),
    ensures
        spec_insert_row(s, x) == s.take(p) + seq![x] + s.skip(p),
    decreases s.len(),
{
    if s.len() == 0 {
        assert(spec_insert_row(s, x) =~= s.take(p) + seq![x] + s.skip(p));
    } else if p == s.len() {
        assert(!row_gt(s.last(), x));
        assert(spec_insert_row(s, x) == s.push(x));
        assert(s.push(x) =~= s.take(p) + seq![x] + s.skip(p));
    } else {
        assert(row_gt(s[s.len() - 1], x));
        lemma_insert_row_at(s.drop_last(), x, p);
        assert(s.drop_last().take(p) =~= s.take(p));
        let lhs = (s.drop_last().take(p) + seq![x] + s.drop_last().skip(p)).push(s.last());
        let rhs = s.take(p) + seq![x] + s.skip(p);
        assert(lhs =~= rhs);
    }
}

// ---------------------------------------------------------------------------
// The executable sort
// ---------------------------------------------------------------------------

/// Decides whether `a` must come after `b` in the report, learning from
/// the comparator that the opposite order then holds.
fn row_gt_exec(a: &MappingEntry, b: &MappingEntry) -> (r: bool)
    requires
        is_ascii_chars(a.version@),
        is_ascii_chars(b.version@),
    ensures
        r == row_gt(row_view(*a), row_view(*b)),
        r ==> row_le(row_view(*b), row_view(*a)),
        !r ==> row_le(row_view(*a), row_view(*b)),
{
    let c = compare_version_strings(&a.version, &b.version);
    match c {
        Ordering::Greater => true,
        Ordering::Less => false,
        Ordering::Equal => {
            let le = str_lex_le(a.group_key.as_str(), b.group_key.as_str());
            if le {
                false
            } else {
                proof {
                    lemma_lex_total(a.group_key@, b.group_key@);
                }
                true
            }
        },
    }
}

spec fn entries_sortable(s: Seq<MappingEntry>) -> bool {
    &&& forall|i: int| 0 <= i < s.len() ==> is_ascii_chars((#[trigger] s[i]).version@)
    &&& forall|i: int| 0 <= i < s.len() ==> (#[trigger] s[i]).types.wf()
}

fn find_insert_pos(v: &Vec<MappingEntry>, x: &MappingEntry) -> (p: usize)
    requires
        entries_sortable(v@),
        is_ascii_chars(x.version@),
    ensures
        p <= v@.len(),
        forall|k: int|
            p <= k < v@.len() ==> row_gt(row_view(#[trigger] v@[k]), row_view(*x)) && row_le(
                row_view(*x),
                row_view(v@[k]),
            ),
        p > 0 ==> !row_gt(row_view(v@[p - 1]), row_view(*x)) && row_le(
            row_view(v@[p - 1]),
            row_view(*x),
        ),
{
    let mut p: usize = v.len();
    while p > 0
        invariant
            0 <= p <= v@.len(),
            entries_sortable(v@),
            is_ascii_chars(x.version@),
            forall|k: int|
                p <= k < v@.len() ==> row_gt(row_view(#[trigger] v@[k]), row_view(*x)) && row_le(
                    row_view(*x),
                    row_view(v@[k]),
                ),
        decreases p,
    {
        let g = row_gt_exec(&v[p - 1], x);
        if !g {
            return p;
        }
        p = p - 1;
    }
    p
}

/// Inserts one row at its report position, keeping the vector sorted.
fn insert_sorted(v: &mut Vec<MappingEntry>, x: MappingEntry)
    requires
        entries_sortable(old(v)@),
        is_ascii_chars(x.version@),
        x.types.wf(),
    ensures
        rows_of(final(v)@) == spec_insert_row(rows_of(old(v)@), row_view(x)),
        entries_sortable(final(v)@),
        sorted_rows(rows_of(old(v)@)) ==> sorted_rows(rows_of(final(v)@)),
{
    let p = find_insert_pos(v, &x);
    let ghost pre = v@;
    proof {
        lemma_insert_row_at(rows_of(pre), row_view(x), p as int);
        assert(forall|k: int|
            p <= k < pre.len() ==> rows_of(pre)[k] == row_view(#[trigger] pre[k]));
    }
    v.insert(p, x);
    proof {
        assert(v@ =~= pre.take(p as int) + seq![x] + pre.skip(p as int));
        assert(rows_of(v@) =~= rows_of(pre).take(p as int) + seq![row_view(x)] + rows_of(
            pre,
        ).skip(p as int));
        assert(entries_sortable(v@));
        if sorted_rows(rows_of(pre)) {
            let rs = rows_of(v@);
            assert forall|i: int| 0 <= i && i + 1 < rs.len() implies row_le(
                #[trigger] rs[i],
                rs[i + 1],
            ) by {
                let n: int = pre.len() as int;
                let q = p as int;
                if i + 1 < q {
                    assert(rs[i] == rows_of(pre)[i]);
                    assert(rs[i + 1] == rows_of(pre)[i + 1]);
                } else if i + 1 == q {
                    assert(rs[i] == rows_of(pre)[i]);
                    assert(rs[i + 1] == row_view(x));
                    assert(row_le(row_view(pre[q - 1]), row_view(x)));
                } else if i == q {
                    assert(rs[i] == row_view(x));
                    assert(rs[i + 1] == rows_of(pre)[q]);
                    assert(row_le(row_view(x), row_view(pre[q])));
                } else {
                    assert(rs[i] == rows_of(pre)[i - 1]);
                    assert(rs[i + 1] == rows_of(pre)[i]);
                }
            }
        }
    }
}

/// Sorts the kept rows into report order: ascending by version, ties by
/// group key. The sort is stable, so rows the comparator cannot tell apart
/// keep their storage order.
fn sorted_entries(input: Vec<MappingEntry>) -> (r: Vec<MappingEntry>)
    requires
        entries_sortable(input@),
    ensures
        rows_of(r@) == spec_sort_rows(rows_of(input@)),
        sorted_rows(rows_of(r@)),
        entries_sortable(r@),
{
    let ghost orig = input@;
    let mut rest = input;
    let mut out: Vec<MappingEntry> = Vec::new();
    proof {
        assert(rest@ =~= orig.skip(0));
        assert(rows_of(orig.take(0)) =~= Seq::<RowView>::empty());
        assert(rows_of(out@) =~= Seq::<RowView>::empty());
    }
    let total: usize = rest.len();
    proof {
        assert(orig.len() == total);
    }
    let mut done: usize = 0;
    while rest.len() > 0
        invariant
            0 <= done <= orig.len(),
            orig.len() == total,
            rest@ == orig.skip(done as int),
            entries_sortable(orig),
            rows_of(out@) == spec_sort_rows(rows_of(orig.take(done as int))),
            sorted_rows(rows_of(out@)),
            entries_sortable(out@),
        decreases rest@.len(),
    {
        let e = rest.remove(0);
        proof {
            assert(e == orig[done as int]);
            assert(rest@ =~= orig.skip(done as int + 1));
            assert(rows_of(orig.take(done as int + 1)).drop_last() =~= rows_of(orig.take(
                done as int,
            )));
            assert(rows_of(orig.take(done as int + 1)).last() == row_view(orig[done as int]));
        }
        insert_sorted(&mut out, e);
        done = done + 1;
    }
    proof {
        assert(orig.skip(done as int).len() == 0);
        assert(done == orig.len());
        assert(orig.take(done as int) =~= orig);
    }
    out
}

// ---------------------------------------------------------------------------
// Rendering the type labels
// ---------------------------------------------------------------------------

/// Insertion into a lexicographically sorted label sequence.
pub open spec fn lex_insert(s: Seq<Seq<char>>, x: Seq<char>) -> Seq<Seq<char>>
    decreases s.len(),
{
    if s.len() == 0 {
        seq![x]
    } else if !lex_le(s.last(), x) {
        lex_insert(s.drop_last(), x).push(s.last())
    } else {
        s.push(x)
    }
}

/// Insertion sort of labels.
pub open spec fn lex_sort(s: Seq<Seq<char>>) -> Seq<Seq<char>>
    decreases s.len(),
{
    if s.len() == 0 {
        Seq::empty()
    } else {
        lex_insert(lex_sort(s.drop_last()), s.last())
    }
}

pub open spec fn sorted_labels(s: Seq<Seq<char>>) -> bool {
    forall|i: int| 0 <= i && i + 1 < s.len() ==> lex_le(#[trigger] s[i], s[i + 1])
}

proof fn lemma_lex_insert_shape(s: Seq<Seq<char>>, x: Seq<char>)
    ensures
        lex_insert(s, x).len() == s.len() + 1,
        lex_insert(s, x).last() == if s.len() > 0 && !lex_le(s.last(), x) {
            s.last()
        } else {
            x
        },
    decreases s.len(),
{
    if s.len() != 0 && !lex_le(s.last(), x) {
        lemma_lex_insert_shape(s.drop_last(), x);
    }
}

proof fn lemma_lex_insert_sorted(s: Seq<Seq<char>>, x: Seq<char>)
    requires
        sorted_labels(s),
    ensures
        sorted_labels(lex_insert(s, x)),
    decreases s.len(),
{
    if s.len() == 0 {
    } else if !lex_le(s.last(), x) {
        assert(forall|i: int|
            0 <= i && i + 1 < s.drop_last().len() ==> lex_le(
                #[trigger] s.drop_last()[i],
                s.drop_last()[i + 1],
            ));
        lemma_lex_insert_sorted(s.drop_last(), x);
        lemma_lex_insert_shape(s.drop_last(), x);
        let t = lex_insert(s.drop_last(), x);
        if s.drop_last().len() > 0 && !lex_le(s.drop_last().last(), x) {
            assert(t.last() == s.drop_last().last());
            assert(s[s.len() - 2] == s.drop_last().last());
            assert(lex_le(s[s.len() - 2], s[s.len() - 1]));
        } else {
            assert(t.last() == x);
            lemma_lex_total(s.last(), x);
            assert(lex_le(x, s.last()));
        }
        let u = t.push(s.last());
        assert forall|i: int| 0 <= i && i + 1 < u.len() implies lex_le(
            #[trigger] u[i],
            u[i + 1],
        ) by {
            if i + 1 < t.len() {
                assert(u[i] == t[i]);
                assert(u[i + 1] == t[i + 1]);
            } else {
                assert(u[i] == t.last());
                assert(u[i + 1] == s.last());
            }
        }
    } else {
        let u = s.push(x);
        assert forall|i: int| 0 <= i && i + 1 < u.len() implies lex_le(
            #[trigger] u[i],
            u[i + 1],
        ) by {
            if i + 1 < s.len() {
                assert(u[i] == s[i]);
                assert(u[i + 1] == s[i + 1]);
            } else {
                assert(u[i] == s.last());
                assert(u[i + 1] == x);
            }
        }
    }
}

/// Sorting labels yields a lexicographically ascending sequence.
pub proof fn lemma_lex_sort_sorted(s: Seq<Seq<char>>)
    ensures
        sorted_labels(lex_sort(s)),
    decreases s.len(),
{
    if s.len() != 0 {
        lemma_lex_sort_sorted(s.drop_last());
        lemma_lex_insert_sorted(lex_sort(s.drop_last()), s.last());
    }
}

proof fn lemma_lex_insert_at(s: Seq<Seq<char>>, x: Seq<char>, p: int)
    requires
        0 <= p <= s.len(),
        forall|k: int| p <= k < s.len() ==> !lex_le(#[trigger] s[k], x),
        p > 0 ==> lex_le(s[p - 1], x),
    ensures
        lex_insert(s, x) == s.take(p) + seq![x] + s.skip(p),
    decreases s.len(),
{
    if s.len() == 0 {
        assert(lex_insert(s, x) =~= s.take(p) + seq![x] + s.skip(p));
    } else if p == s.len() {
        assert(lex_le(s.last(), x));
        assert(s.push(x) =~= s.take(p) + seq![x] + s.skip(p));
    } else {
        assert(!lex_le(s[s.len() - 1], x));
        lemma_lex_insert_at(s.drop_last(), x, p);
        assert(s.drop_last().take(p) =~= s.take(p));
        let lhs = (s.drop_last().take(p) + seq![x] + s.drop_last().skip(p)).push(s.last());
        let rhs = s.take(p) + seq![x] + s.skip(p);
        assert(lhs =~= rhs);
    }
}

/// The labels other than "source", in their stored order.
pub open spec fn minus_source(s: Seq<Seq<char>>) -> Seq<Seq<char>>
    decreases s.len(),
{
    if s.len() == 0 {
        Seq::empty()
    } else {
        let pre = minus_source(s.drop_last());
        if s.last() == "source"@ {
            pre
        } else {
            pre.push(s.last())
        }
    }
}

/// The rendering order of a label set: "source" first when present, the
/// remaining labels lexicographically ascending.
pub open spec fn type_list(s: Seq<Seq<char>>) -> Seq<Seq<char>> {
    if s.contains("source"@) {
        seq!["source"@] + lex_sort(minus_source(s))
    } else {
        lex_sort(minus_source(s))
    }
}

/// Labels joined with a comma and a space.
pub open spec fn join_labels(s: Seq<Seq<char>>) -> Seq<char>
    decreases s.len(),
{
    if s.len() == 0 {
        Seq::empty()
    } else if s.len() == 1 {
        s[0]
    } else {
        join_labels(s.drop_last()) + ", "@ + s.last()
    }
}

/// The rendered form of one row's type labels.
pub open spec fn rendered_types(s: Seq<Seq<char>>) -> Seq<char> {
    join_labels(type_list(s))
}

/// Rendering order: "source" always leads when present, and whatever
/// follows it ascends lexicographically.
pub proof fn lemma_rendering_order(s: Seq<Seq<char>>)
    ensures
        s.contains("source"@) ==> type_list(s).len() > 0 && type_list(s)[0] == "source"@,
        forall|i: int|
            ({
                let start: int = if s.contains("source"@) {
                    1
                } else {
                    0
                };
                start <= i && i + 1 < type_list(s).len() ==> lex_le(
                    #[trigger] type_list(s)[i],
                    type_list(s)[i + 1],
                )
            }),
{
    lemma_lex_sort_sorted(minus_source(s));
    let sorted = lex_sort(minus_source(s));
    if s.contains("source"@) {
        let l = seq!["source"@] + sorted;
        assert(l[0] == "source"@);
        assert(forall|i: int| 1 <= i < l.len() ==> l[i] == sorted[i - 1]);
    }
}

spec fn labels_of(s: Seq<String>) -> Seq<Seq<char>> {
    s.map_values(|x: String| x@)
}

fn find_label_pos(v: &Vec<String>, x: &String) -> (p: usize)
    ensures
        p <= v@.len(),
        forall|k: int| p <= k < v@.len() ==> !lex_le(#[trigger] v@[k]@, x@),
        p > 0 ==> lex_le(v@[p - 1]@, x@),
{
    let mut p: usize = v.len();
    while p > 0
        invariant
            0 <= p <= v@.len(),
            forall|k: int| p <= k < v@.len() ==> !lex_le(#[trigger] v@[k]@, x@),
        decreases p,
    {
        if str_lex_le(v[p - 1].as_str(), x.as_str()) {
            return p;
        }
        p = p - 1;
    }
    p
}

fn insert_label(v: &mut Vec<String>, x: String)
    ensures
        labels_of(final(v)@) == lex_insert(labels_of(old(v)@), x@),
{
    let p = find_label_pos(v, &x);
    let ghost pre = v@;
    proof {
        assert(forall|k: int| 0 <= k < pre.len() ==> labels_of(pre)[k] == (#[trigger] pre[k])@);
        lemma_lex_insert_at(labels_of(pre), x@, p as int);
    }
    v.insert(p, x);
    proof {
        assert(v@ =~= pre.take(p as int) + seq![x] + pre.skip(p as int));
        assert(labels_of(v@) =~= labels_of(pre).take(p as int) + seq![x@] + labels_of(pre).skip(
            p as int,
        ));
    }
}

/// Renders one row's type labels: "source" first when the set holds it,
/// then the remaining labels in ascending lexicographic order, joined by
/// a comma and a space.
pub fn render_types(t: &TypeSet) -> (r: String)
    ensures
        r@ == rendered_types(t.sview()),
{
    let source_lbl: String = "source".to_owned();
    let mut rest: Vec<String> = Vec::new();
    let mut has_source = false;
    let mut i: usize = 0;
    let n: usize = t.len();
    proof {
        assert(t.sview().take(0) =~= Seq::<Seq<char>>::empty());
        assert(labels_of(rest@) =~= Seq::<Seq<char>>::empty());
        assert(minus_source(t.sview().take(0)) =~= Seq::<Seq<char>>::empty());
    }
    while i < n
        invariant
            0 <= i <= n,
            n == t.sview().len(),
            source_lbl@ == "source"@,
            labels_of(rest@) == minus_source(t.sview().take(i as int)),
            has_source == t.sview().take(i as int).contains("source"@),
        decreases n - i,
    {
        let lbl = t.get(i);
        proof {
            assert(t.sview().take(i + 1).drop_last() =~= t.sview().take(i as int));
            assert(t.sview().take(i + 1).last() == t.sview()[i as int]);
        }
        if lbl.eq(&source_lbl) {
            has_source = true;
            proof {
                assert(t.sview().take(i + 1)[i as int] == "source"@);
            }
        } else {
            let ghost pre_rest = rest@;
            rest.push(lbl.clone());
            proof {
                assert(labels_of(rest@) =~= labels_of(pre_rest).push(t.sview()[i as int]));
                if t.sview().take(i + 1).contains("source"@) {
                    let q = choose|q: int|
                        0 <= q < t.sview().take(i + 1).len() && #[trigger] t.sview().take(i + 1)[q]
                            == "source"@;
                    assert(q < i as int ==> t.sview().take(i as int)[q] == "source"@);
                }
            }
        }
        i = i + 1;
    }
    proof {
        assert(t.sview().take(n as int) =~= t.sview());
    }
    let mut sorted: Vec<String> = Vec::new();
    let mut j: usize = 0;
    proof {
        assert(labels_of(rest@).take(0) =~= Seq::<Seq<char>>::empty());
        assert(labels_of(sorted@) =~= lex_sort(labels_of(rest@).take(0)));
    }
    while j < rest.len()
        invariant
            0 <= j <= rest@.len(),
            labels_of(rest@) == minus_source(t.sview()),
            labels_of(sorted@) == lex_sort(labels_of(rest@).take(j as int)),
        decreases rest@.len() - j,
    {
        proof {
            assert(labels_of(rest@).take(j + 1).drop_last() =~= labels_of(rest@).take(j as int));
            assert(labels_of(rest@).take(j + 1).last() == rest@[j as int]@);
        }
        insert_label(&mut sorted, rest[j].clone());
        j = j + 1;
    }
    proof {
        assert(labels_of(rest@).take(rest@.len() as int) =~= labels_of(rest@));
    }
    let mut parts: Vec<String> = Vec::new();
    if has_source {
        parts.push(source_lbl);
    }
    let ghost head = labels_of(parts@);
    parts.append(&mut sorted);
    proof {
        assert(labels_of(parts@) =~= head + lex_sort(minus_source(t.sview())));
        if has_source {
            assert(labels_of(parts@) =~= type_list(t.sview()));
        } else {
            assert(head =~= Seq::<Seq<char>>::empty());
            assert(labels_of(parts@) =~= type_list(t.sview()));
        }
    }
    join_parts(&parts)
}

/// Joins rendered label parts with a comma and a space.
fn join_parts(parts: &Vec<String>) -> (r: String)
    ensures
        r@ == join_labels(labels_of(parts@)),
{
    let mut out = String::new();
    let mut j: usize = 0;
    proof {
        assert(labels_of(parts@).take(0) =~= Seq::<Seq<char>>::empty());
    }
    while j < parts.len()
        invariant
            0 <= j <= parts@.len(),
            out@ == join_labels(labels_of(parts@).take(j as int)),
        decreases parts@.len() - j,
    {
        proof {
            assert(labels_of(parts@).take(j + 1).drop_last() =~= labels_of(parts@).take(j as int));
            assert(labels_of(parts@).take(j + 1).last() == parts@[j as int]@);
        }
        if j > 0 {
            out.append(", ");
        }
        out.append(parts[j].as_str());
        proof {
            if j == 0 {
                assert(out@ =~= labels_of(parts@).take(1)[0]);
            }
        }
        j = j + 1;
    }
    proof {
        assert(labels_of(parts@).take(parts@.len() as int) =~= labels_of(parts@));
    }
    out
}

// ---------------------------------------------------------------------------
// One package's rows
// ---------------------------------------------------------------------------

/// The rendered form of one kept row.
pub open spec fn output_of(r: RowView) -> MadisonOutputRecordView {
    MadisonOutputRecordView {
        package: r.package,
        version: r.version,
        codename: r.group_key,
        architectures: rendered_types(r.types),
    }
}

pub open spec fn filter_view(suite: Option<String>) -> Option<Seq<char>> {
    match suite {
        Option::Some(f) => Option::Some(f@),
        Option::None => Option::None,
    }
}

/// Everything the report answers for one package: its rows filtered, put
/// into report order, and rendered.
pub open spec fn package_rows_spec(
    entries: Seq<MappingEntry>,
    package: Seq<char>,
    filter: Option<Seq<char>>,
) -> Seq<MadisonOutputRecordView> {
    spec_sort_rows(filtered_rows(rows_of(entries), package, filter)).map_values(
        |r: RowView| output_of(r),
    )
}

/// Report order on rendered rows.
pub open spec fn out_le(a: MadisonOutputRecordView, b: MadisonOutputRecordView) -> bool {
    ||| version_cmp(a.version, b.version) == Ordering::Less
    ||| (version_cmp(a.version, b.version) == Ordering::Equal && lex_le(a.codename, b.codename))
}

pub open spec fn sorted_outs(s: Seq<MadisonOutputRecordView>) -> bool {
    forall|i: int| 0 <= i && i + 1 < s.len() ==> out_le(#[trigger] s[i], s[i + 1])
}

fn clone_entry(e: &MappingEntry) -> (r: MappingEntry)
    ensures
        row_view(r) == row_view(*e),
        e.types.wf() ==> r.types.wf(),
{
    MappingEntry {
        package: e.package.clone(),
        group_key: e.group_key.clone(),
        version: e.version.clone(),
        types: e.types.copied(),
    }
}

/// One package's answer: the rows stored for it, restricted to the group
/// key filter when one is supplied, sorted ascending by version with group
/// key ties ascending, each rendered. A package without rows answers with
/// none — that is no error.
pub fn generate_package_rows(m: &MadisonMapping, package: &String, suite: &Option<String>) -> (r:
    Vec<MadisonOutputRecord>)
    requires
        m.wf(),
    ensures
        r@.map_values(|o: MadisonOutputRecord| o@) == package_rows_spec(
            m.entries@,
            package@,
            filter_view(*suite),
        ),
        sorted_outs(r@.map_values(|o: MadisonOutputRecord| o@)),
        forall|i: int| 0 <= i < r@.len() ==> (#[trigger] r@[i])@.package == package@,
        match *suite {
            Option::Some(f) => forall|i: int|
                0 <= i < r@.len() ==> (#[trigger] r@[i])@.codename == f@,
            Option::None => true,
        },
        (forall|j: int| 0 <= j < m.entries@.len() ==> (#[trigger] m.entries@[j]).package@
            != package@) ==> r@.len() == 0,
{
    let ghost fv = filter_view(*suite);
    let mut kept: Vec<MappingEntry> = Vec::new();
    let mut i: usize = 0;
    proof {
        assert(rows_of(m.entries@.take(0)) =~= Seq::<RowView>::empty());
        assert(rows_of(kept@) =~= Seq::<RowView>::empty());
    }
    while i < m.entries.len()
        invariant
            0 <= i <= m.entries@.len(),
            m.wf(),
            fv == filter_view(*suite),
            rows_of(kept@) == filtered_rows(rows_of(m.entries@.take(i as int)), package@, fv),
            entries_sortable(kept@),
        decreases m.entries@.len() - i,
    {
        let e = &m.entries[i];
        let pkg_match = e.package.eq(package);
        let key_match = match suite {
            Option::Some(f) => e.group_key.eq(f),
            Option::None => true,
        };
        proof {
            assert(rows_of(m.entries@.take(i + 1)).drop_last() =~= rows_of(m.entries@.take(
                i as int,
            )));
            assert(rows_of(m.entries@.take(i + 1)).last() == row_view(m.entries@[i as int]));
            assert((pkg_match && key_match) == row_matches(
                row_view(m.entries@[i as int]),
                package@,
                fv,
            ));
        }
        if pkg_match && key_match {
            let ghost pre_kept = kept@;
            kept.push(clone_entry(e));
            proof {
                assert(rows_of(kept@) =~= rows_of(pre_kept).push(row_view(m.entries@[i as int])));
            }
        }
        i = i + 1;
    }
    proof {
        assert(m.entries@.take(m.entries@.len() as int) =~= m.entries@);
    }
    let ghost kept_rows = rows_of(kept@);
    let sorted = sorted_entries(kept);
    let mut out: Vec<MadisonOutputRecord> = Vec::new();
    let mut j: usize = 0;
    while j < sorted.len()
        invariant
            0 <= j <= sorted@.len(),
            out@.len() == j,
            entries_sortable(sorted@),
            forall|p: int|
                0 <= p < j ==> (#[trigger] out@[p])@ == output_of(rows_of(sorted@)[p]),
        decreases sorted@.len() - j,
    {
        let e = &sorted[j];
        let rendered = render_types(&e.types);
        out.push(
            MadisonOutputRecord::new(
                e.package.clone(),
                e.version.clone(),
                e.group_key.clone(),
                rendered,
            ),
        );
        proof {
            assert(rows_of(sorted@)[j as int] == row_view(sorted@[j as int]));
        }
        j = j + 1;
    }
    proof {
        let outs = out@.map_values(|o: MadisonOutputRecord| o@);
        let sorted_rows_seq = rows_of(sorted@);
        assert(outs =~= sorted_rows_seq.map_values(|r: RowView| output_of(r)));
        assert(sorted_rows_seq == spec_sort_rows(filtered_rows(
            rows_of(m.entries@),
            package@,
            fv,
        )));
        assert forall|p: int| 0 <= p < sorted_rows_seq.len() implies row_matches(
            #[trigger] sorted_rows_seq[p],
            package@,
            fv,
        ) by {
            assert(sorted_rows_seq.contains(sorted_rows_seq[p]));
            lemma_sort_rows_contains(kept_rows, sorted_rows_seq[p]);
            lemma_filtered_sub(rows_of(m.entries@), package@, fv, sorted_rows_seq[p]);
        }
        assert forall|p: int| 0 <= p < out@.len() implies (#[trigger] out@[p])@.package
            == package@ by {
            assert(out@[p]@ == output_of(sorted_rows_seq[p]));
        }
        if forall|q: int| 0 <= q < m.entries@.len() ==> (#[trigger] m.entries@[q]).package@
            != package@ {
            assert(forall|q: int|
                0 <= q < rows_of(m.entries@).len() ==> (#[trigger] rows_of(m.entries@)[q]).package
                    != package@);
            lemma_filtered_absent(rows_of(m.entries@), package@, fv);
            lemma_sort_rows_len(filtered_rows(rows_of(m.entries@), package@, fv));
        }
    }
    out
}

// ---------------------------------------------------------------------------
// The structure: one group per requested package
// ---------------------------------------------------------------------------

/// One requested package together with its rendered rows.
pub struct PackageRows {
    pub package: String,
    pub rows: Vec<MadisonOutputRecord>,
}

#[verifier::ext_equal]
pub ghost struct GroupView {
    pub package: Seq<char>,
    pub rows: Seq<MadisonOutputRecordView>,
}

impl View for PackageRows {
    type V = GroupView;

    open spec fn view(&self) -> GroupView {
        GroupView {
            package: self.package@,
            rows: self.rows@.map_values(|o: MadisonOutputRecord| o@),
        }
    }
}

/// The rendered report before table layout: groups in the callers' order.
pub struct MadisonStructure {
    pub groups: Vec<PackageRows>,
}

impl View for MadisonStructure {
    type V = Seq<GroupView>;

    open spec fn view(&self) -> Seq<GroupView> {
        self.groups@.map_values(|g: PackageRows| g@)
    }
}

pub open spec fn package_present(entries: Seq<MappingEntry>, p: Seq<char>) -> bool {
    exists|i: int| 0 <= i < entries.len() && (#[trigger] entries[i]).package@ == p
}

pub open spec fn pkgs_views(s: Seq<String>) -> Seq<Seq<char>> {
    s.map_values(|p: String| p@)
}

/// The groups a request produces: one per requested package that the
/// mapping knows, at its first occurrence, in request order.
pub open spec fn structure_spec(
    entries: Seq<MappingEntry>,
    pkgs: Seq<Seq<char>>,
    filter: Option<Seq<char>>,
) -> Seq<GroupView>
    decreases pkgs.len(),
{
    if pkgs.len() == 0 {
        Seq::empty()
    } else {
        let pre = structure_spec(entries, pkgs.drop_last(), filter);
        let p = pkgs.last();
        if package_present(entries, p) && !pkgs.drop_last().contains(p) {
            pre.push(GroupView { package: p, rows: package_rows_spec(entries, p, filter) })
        } else {
            pre
        }
    }
}

fn package_in_mapping(m: &MadisonMapping, p: &String) -> (r: bool)
    ensures
        r == package_present(m.entries@, p@),
{
    let mut i: usize = 0;
    while i < m.entries.len()
        invariant
            0 <= i <= m.entries@.len(),
            forall|j: int| 0 <= j < i ==> (#[trigger] m.entries@[j]).package@ != p@,
        decreases m.entries@.len() - i,
    {
        if m.entries[i].package.eq(p) {
            return true;
        }
        i = i + 1;
    }
    false
}

fn requested_before(packages: &Vec<String>, upto: usize, p: &String) -> (r: bool)
    requires
        upto <= packages@.len(),
    ensures
        r == pkgs_views(packages@).take(upto as int).contains(p@),
{
    let mut i: usize = 0;
    while i < upto
        invariant
            0 <= i <= upto <= packages@.len(),
            forall|j: int| 0 <= j < i ==> (#[trigger] packages@[j])@ != p@,
        decreases upto - i,
    {
        if packages[i].eq(p) {
            proof {
                assert(pkgs_views(packages@).take(upto as int)[i as int] == p@);
            }
            return true;
        }
        i = i + 1;
    }
    proof {
        if pkgs_views(packages@).take(upto as int).contains(p@) {
            let j = choose|j: int|
                0 <= j < upto && #[trigger] pkgs_views(packages@).take(upto as int)[j] == p@;
            assert(packages@[j]@ == p@);
        }
    }
    false
}

/// Builds the report structure for the requested packages: each package
/// the mapping knows contributes one group at its first occurrence; a name
/// absent from the mapping contributes nothing. A supplied group key
/// restricts every group to rows under that key alone.
pub fn generate_madison_structure(
    m: &MadisonMapping,
    packages: &Vec<String>,
    suite: Option<String>,
) -> (r: MadisonStructure)
    requires
        m.wf(),
    ensures
        r@ == structure_spec(m.entries@, pkgs_views(packages@), filter_view(suite)),
        forall|g: int| 0 <= g < r@.len() ==> sorted_outs((#[trigger] r@[g]).rows),
{
    let ghost fv = filter_view(suite);
    let ghost pv = pkgs_views(packages@);
    let mut groups: Vec<PackageRows> = Vec::new();
    let mut i: usize = 0;
    proof {
        assert(pv.take(0) =~= Seq::<Seq<char>>::empty());
        assert(groups@.map_values(|g: PackageRows| g@) =~= Seq::<GroupView>::empty());
    }
    while i < packages.len()
        invariant
            0 <= i <= packages@.len(),
            pv == pkgs_views(packages@),
            pv.len() == packages@.len(),
            fv == filter_view(suite),
            m.wf(),
            groups@.map_values(|g: PackageRows| g@) == structure_spec(
                m.entries@,
                pv.take(i as int),
                fv,
            ),
            forall|g: int|
                0 <= g < groups@.len() ==> sorted_outs((#[trigger] groups@[g])@.rows),
        decreases packages@.len() - i,
    {
        let p = &packages[i];
        proof {
            assert(pv[i as int] == p@);
            assert(pv.take(i + 1).drop_last() =~= pv.take(i as int));
            assert(pv.take(i + 1).last() == pv[i as int]);
        }
        let dup = requested_before(packages, i, p);
        let present = package_in_mapping(m, p);
        if present && !dup {
            let rows = generate_package_rows(m, p, &suite);
            let ghost pre_groups = groups@;
            groups.push(PackageRows { package: p.clone(), rows });
            proof {
                assert(groups@.map_values(|g: PackageRows| g@) =~= pre_groups.map_values(
                    |g: PackageRows| g@,
                ).push(groups@[groups@.len() - 1]@));
                assert(groups@[groups@.len() - 1]@ =~~= GroupView {
                    package: p@,
                    rows: package_rows_spec(m.entries@, p@, fv),
                });
            }
        }
        i = i + 1;
    }
    proof {
        assert(pv.take(packages@.len() as int) =~= pv);
    }
    MadisonStructure { groups }
}

// ---------------------------------------------------------------------------
// The rendered table
// ---------------------------------------------------------------------------

/// One rendered row laid out as the four table cells.
pub open spec fn cells_of(o: MadisonOutputRecordView) -> (Seq<char>, Seq<char>, Seq<char>, Seq<char>) {
    (o.package, o.version, o.codename, o.architectures)
}

/// The rows of all groups, in group order.
pub open spec fn flat_rows(gs: Seq<GroupView>) -> Seq<MadisonOutputRecordView>
    decreases gs.len(),
{
    if gs.len() == 0 {
        Seq::empty()
    } else {
        flat_rows(gs.drop_last()) + gs.last().rows
    }
}

pub open spec fn table_cells(gs: Seq<GroupView>) -> Seq<(Seq<char>, Seq<char>, Seq<char>, Seq<char>)> {
    flat_rows(gs).map_values(|o: MadisonOutputRecordView| cells_of(o))
}

/// The whole answer for a request: the structure's rows laid out as a
/// table with vertical separators, every line trimmed at both ends, one
/// trailing newline.
pub open spec fn madison_render(
    entries: Seq<MappingEntry>,
    pkgs: Seq<Seq<char>>,
    filter: Option<Seq<char>>,
) -> Seq<char> {
    let cells = table_cells(structure_spec(entries, pkgs, filter));
    if cells.len() == 0 {
        seq!['\n']
    } else {
        trimmed_table(table_layout(cells))
    }
}

/// Every rendered answer has the output line format: it ends in exactly
/// one newline and no line starts or ends with a blank character.
pub proof fn lemma_madison_render_format(
    entries: Seq<MappingEntry>,
    pkgs: Seq<Seq<char>>,
    filter: Option<Seq<char>>,
)
    ensures
        line_format_ok(madison_render(entries, pkgs, filter)),
{
    let cells = table_cells(structure_spec(entries, pkgs, filter));
    if cells.len() == 0 {
        assert(madison_render(entries, pkgs, filter).len() == 1);
    } else {
        lemma_trimmed_table_format(table_layout(cells));
    }
}

/// Renders the full report for the requested packages: groups in request
/// order, each package's rows sorted, unknown names contributing nothing.
pub fn do_madison(
    madison_mapping: &MadisonMapping,
    packages: Vec<String>,
    suite: Option<String>,
) -> (r: String)
    requires
        madison_mapping.wf(),
    ensures
        r@ == madison_render(madison_mapping.entries@, pkgs_views(packages@), filter_view(suite)),
        line_format_ok(r@),
        table_cells(
            structure_spec(madison_mapping.entries@, pkgs_views(packages@), filter_view(suite)),
        ).len() == 0 ==> r@ == seq!['\n'],
{
    let structure = generate_madison_structure(madison_mapping, &packages, suite);
    let mut b = crate::table::builder_new();
    let mut g: usize = 0;
    proof {
        assert(structure@.take(0) =~= Seq::<GroupView>::empty());
        assert(crate::table::builder_rows(b) =~= table_cells(structure@.take(0)));
    }
    while g < structure.groups.len()
        invariant
            0 <= g <= structure.groups@.len(),
            structure@.len() == structure.groups@.len(),
            crate::table::builder_rows(b) == table_cells(structure@.take(g as int)),
        decreases structure.groups@.len() - g,
    {
        let group = &structure.groups[g];
        proof {
            assert(structure@[g as int] == structure.groups@[g as int]@);
        }
        let mut k: usize = 0;
        while k < group.rows.len()
            invariant
                0 <= k <= group.rows@.len(),
                group == &structure.groups@[g as int],
                0 <= g < structure.groups@.len(),
                structure@.len() == structure.groups@.len(),
                structure@[g as int] == structure.groups@[g as int]@,
                crate::table::builder_rows(b) == table_cells(structure@.take(g as int)) + group@
                    .rows.take(k as int).map_values(|o: MadisonOutputRecordView| cells_of(o)),
            decreases group.rows@.len() - k,
        {
            let row = &group.rows[k];
            proof {
                assert(group@.rows[k as int] == group.rows@[k as int]@);
            }
            crate::table::builder_push_row(
                &mut b,
                &row.package,
                &row.version,
                &row.codename,
                &row.architectures,
            );
            proof {
                let mapped = group@.rows.take(k + 1).map_values(
                    |o: MadisonOutputRecordView| cells_of(o),
                );
                assert(mapped =~= group@.rows.take(k as int).map_values(
                    |o: MadisonOutputRecordView| cells_of(o),
                ).push(cells_of(group@.rows[k as int])));
                assert(crate::table::builder_rows(b) =~= table_cells(structure@.take(g as int))
                    + mapped);
            }
            k = k + 1;
        }
        proof {
            assert(group@.rows.take(group.rows@.len() as int) =~= group@.rows);
            assert(flat_rows(structure@.take(g + 1)).map_values(
                |o: MadisonOutputRecordView| cells_of(o),
            ) =~= table_cells(structure@.take(g as int)) + group@.rows.map_values(
                |o: MadisonOutputRecordView| cells_of(o),
            )) by {
                assert(structure@.take(g + 1).drop_last() =~= structure@.take(g as int));
                assert(structure@.take(g + 1).last() == structure@[g as int]);
            }
        }
        g = g + 1;
    }
    proof {
        assert(structure@.take(structure.groups@.len() as int) =~= structure@);
    }
    let raw = crate::table::builder_layout(b);
    proof {
        if table_cells(structure@).len() == 0 {
            lemma_trimmed_table_empty();
        }
    }
    trim_join(raw.as_str())
}

// ---------------------------------------------------------------------------
// Splitting a requested package list
// ---------------------------------------------------------------------------

/// One step of splitting on single spaces: a space closes the current
/// word, any other character extends it.
pub open spec fn split_step(acc: (Seq<Seq<char>>, Seq<char>), c: char) -> (Seq<Seq<char>>, Seq<char>) {
    if c == ' ' {
        (acc.0.push(acc.1), Seq::empty())
    } else {
        (acc.0, acc.1.push(c))
    }
}

pub open spec fn split_scan(s: Seq<char>, n: int) -> (Seq<Seq<char>>, Seq<char>)
    decreases n,
{
    if n <= 0 {
        (Seq::empty(), Seq::empty())
    } else {
        split_step(split_scan(s, n - 1), s[n - 1])
    }
}

/// The words of a request string, split on every single space; consecutive
/// spaces contribute empty words, mirroring a plain split on one space.
pub open spec fn split_words(s: Seq<char>) -> Seq<Seq<char>> {
    split_scan(s, s.len() as int).0.push(split_scan(s, s.len() as int).1)
}

/// Splits a space-separated package request into the requested names.
pub fn split_packages(package_str: &String) -> (r: Vec<String>)
    ensures
        pkgs_views(r@) == split_words(package_str@),
{
    let s = package_str.as_str();
    let n: usize = s.unicode_len();
    let mut out: Vec<String> = Vec::new();
    let mut start: usize = 0;
    let mut i: usize = 0;
    proof {
        assert(pkgs_views(out@) =~= Seq::<Seq<char>>::empty());
        assert(s@.subrange(0, 0) =~= Seq::<char>::empty());
    }
    while i < n
        invariant
            0 <= start <= i <= n,
            n == s@.len(),
            s@ == package_str@,
            split_scan(s@, i as int).0 == pkgs_views(out@),
            split_scan(s@, i as int).1 == s@.subrange(start as int, i as int),
        decreases n - i,
    {
        let c = s.get_char(i);
        if c == ' ' {
            let ghost pre_out = out@;
            let ghost word_start = start as int;
            let w = s.substring_char(start, i).to_owned();
            out.push(w);
            start = i + 1;
            proof {
                assert(pkgs_views(out@) =~= pkgs_views(pre_out).push(s@.subrange(
                    word_start,
                    i as int,
                )));
                assert(s@.subrange(i + 1, i + 1) =~= Seq::<char>::empty());
            }
        } else {
            proof {
                assert(s@.subrange(start as int, i as int).push(s@[i as int]) =~= s@.subrange(
                    start as int,
                    i + 1,
                ));
            }
        }
        i = i + 1;
    }
    let w = s.substring_char(start, n).to_owned();
    out.push(w);
    proof {
        assert(pkgs_views(out@) =~= split_scan(s@, n as int).0.push(split_scan(s@, n as int).1));
    }
    out
}

} // verus!
