use vstd::prelude::*;
use vstd::utf8::is_ascii_chars;
use vstd::string::StringExecFnsIsAscii;
use core::cmp::Ordering;

use crate::types::{
    Listing, ListingView, ListingDescriptorView, PackageRecord, PackageRecordView, KeyChoice,
    key_of, arch_label, resolved_source, apply_key,
};
use crate::typeset::TypeSet;
use crate::vercmp::{version_cmp, compare_version_strings};

verus! {

// ---------------------------------------------------------------------------
// The mathematical model of the mapping
// ---------------------------------------------------------------------------

/// What one listing knows about one package name: the highest version seen
/// so far and every type label ever observed, whichever version carried it.
#[verifier::ext_equal]
pub ghost struct LocalInfo {
    pub version: Seq<char>,
    pub types: Set<Seq<char>>,
}

/// The key of one row of the report: each distinct triple is one row.
#[verifier::ext_equal]
pub ghost struct RowKey {
    pub package: Seq<char>,
    pub group_key: Seq<char>,
    pub version: Seq<char>,
}

/// The built report data: type labels per (package, group key, version).
pub type MappingView = Map<RowKey, Set<Seq<char>>>;

/// The types stored for a key, or the empty set where the key is absent.
pub open spec fn types_at(m: MappingView, k: RowKey) -> Set<Seq<char>> {
    if m.dom().contains(k) {
        m[k]
    } else {
        Set::empty()
    }
}

/// One type contribution folded into a listing's local map: a new name is
/// entered with its version; a known name keeps accumulating labels and
/// advances its version only when the new one compares strictly greater.
pub open spec fn local_add(
    m: Map<Seq<char>, LocalInfo>,
    name: Seq<char>,
    version: Seq<char>,
    label: Seq<char>,
) -> Map<Seq<char>, LocalInfo> {
    if m.dom().contains(name) {
        let cur = m[name];
        m.insert(
            name,
            LocalInfo {
                version: if version_cmp(version, cur.version) == Ordering::Greater {
                    version
                } else {
                    cur.version
                },
                types: cur.types.insert(label),
            },
        )
    } else {
        m.insert(name, LocalInfo { version, types: Set::empty().insert(label) })
    }
}

/// One record contributes twice: "source" at its resolved source package,
/// and the listing's architecture label at its own name.
pub open spec fn record_step(
    m: Map<Seq<char>, LocalInfo>,
    r: PackageRecordView,
    arch: Seq<char>,
) -> Map<Seq<char>, LocalInfo> {
    local_add(local_add(m, resolved_source(r), r.version, "source"@), r.name, r.version, arch)
}

/// The local map a scan of the given records produces.
pub open spec fn local_scan(records: Seq<PackageRecordView>, arch: Seq<char>) -> Map<
    Seq<char>,
    LocalInfo,
>
    decreases records.len(),
{
    if records.len() == 0 {
        Map::empty()
    } else {
        record_step(local_scan(records.drop_last(), arch), records.last(), arch)
    }
}

/// A local map laid out as report rows under one group key.
pub open spec fn keyed_rows(m: Map<Seq<char>, LocalInfo>, key: Seq<char>) -> MappingView {
    Map::new(
        |k: RowKey|
            k.group_key == key && m.dom().contains(k.package) && m[k.package].version == k.version,
        |k: RowKey| m[k.package].types,
    )
}

/// Everything one listing contributes to the report.
pub open spec fn listing_contrib(l: ListingView, choice: KeyChoice) -> MappingView {
    keyed_rows(
        local_scan(l.records, arch_label(l.descriptor)),
        key_of(choice, l.descriptor),
    )
}

/// The union of two partial results: for every key, the union of the type
/// sets either side holds for it.
pub open spec fn merge_views(a: MappingView, b: MappingView) -> MappingView {
    Map::new(
        |k: RowKey| a.dom().contains(k) || b.dom().contains(k),
        |k: RowKey| types_at(a, k) + types_at(b, k),
    )
}

/// The report built from the first `n` listings.
pub open spec fn build_prefix(ls: Seq<ListingView>, choice: KeyChoice, n: int) -> MappingView
    decreases n,
{
    if n <= 0 {
        Map::empty()
    } else {
        merge_views(build_prefix(ls, choice, n - 1), listing_contrib(ls[n - 1], choice))
    }
}

/// The report built from a whole listing set.
pub open spec fn build_view(ls: Seq<ListingView>, choice: KeyChoice) -> MappingView {
    build_prefix(ls, choice, ls.len() as int)
}

/// Every record's version can be handed to the external comparator.
pub open spec fn listing_versions_ascii(l: ListingView) -> bool {
    forall|i: int| 0 <= i < l.records.len() ==> is_ascii_chars(#[trigger] l.records[i].version)
}

pub open spec fn listings_versions_ascii(ls: Seq<ListingView>) -> bool {
    forall|i: int| 0 <= i < ls.len() ==> listing_versions_ascii(#[trigger] ls[i])
}

// ---------------------------------------------------------------------------
// The per-listing local map
// ---------------------------------------------------------------------------

struct LocalEntry {
    name: String,
    version: String,
    types: TypeSet,
}

spec fn local_info_of(e: LocalEntry) -> LocalInfo {
    LocalInfo { version: e.version@, types: e.types@ }
}

spec fn local_map_of(s: Seq<LocalEntry>) -> Map<Seq<char>, LocalInfo>
    decreases s.len(),
{
    if s.len() == 0 {
        Map::empty()
    } else {
        local_map_of(s.drop_last()).insert(s.last().name@, local_info_of(s.last()))
    }
}

spec fn local_entries_wf(s: Seq<LocalEntry>) -> bool {
    &&& forall|i: int, j: int| 0 <= i < j < s.len() ==> s[i].name@ != s[j].name@
    &&& forall|i: int| 0 <= i < s.len() ==> (#[trigger] s[i]).types.wf()
    &&& forall|i: int| 0 <= i < s.len() ==> is_ascii_chars((#[trigger] s[i]).version@)
}

proof fn lemma_local_map_dom(s: Seq<LocalEntry>, name: Seq<char>)
    ensures
        local_map_of(s).dom().contains(name) <==> exists|i: int|
            0 <= i < s.len() && (#[trigger] s[i]).name@ == name,
    decreases s.len(),
{
    if s.len() > 0 {
        lemma_local_map_dom(s.drop_last(), name);
        if local_map_of(s).dom().contains(name) {
            if s.last().name@ != name {
                let i = choose|i: int|
                    0 <= i < s.drop_last().len() && (#[trigger] s.drop_last()[i]).name@ == name;
                assert(s[i].name@ == name);
            } else {
                assert(s[s.len() - 1].name@ == name);
            }
        }
        if exists|i: int| 0 <= i < s.len() && (#[trigger] s[i]).name@ == name {
            let i = choose|i: int| 0 <= i < s.len() && (#[trigger] s[i]).name@ == name;
            if i < s.len() - 1 {
                assert(s.drop_last()[i].name@ == name);
            }
        }
    }
}

proof fn lemma_local_map_value(s: Seq<LocalEntry>, i: int)
    requires
        forall|p: int, q: int| 0 <= p < q < s.len() ==> s[p].name@ != s[q].name@,
        0 <= i < s.len(),
    ensures
        local_map_of(s).dom().contains(s[i].name@),
        local_map_of(s)[s[i].name@] == local_info_of(s[i]),
    decreases s.len(),
{
    if i == s.len() - 1 {
    } else {
        lemma_local_map_value(s.drop_last(), i);
        assert(s.drop_last()[i] == s[i]);
        assert(s.last().name@ != s[i].name@);
    }
}

proof fn lemma_local_map_update(s: Seq<LocalEntry>, i: int, e: LocalEntry)
    requires
        forall|p: int, q: int| 0 <= p < q < s.len() ==> s[p].name@ != s[q].name@,
        0 <= i < s.len(),
        e.name@ == s[i].name@,
    ensures
        local_map_of(s.update(i, e)) == local_map_of(s).insert(e.name@, local_info_of(e)),
    decreases s.len(),
{
    let t = s.update(i, e);
    if i == s.len() - 1 {
        assert(t.drop_last() =~= s.drop_last());
        assert(t.last() == e);
        assert(local_map_of(t) =~~= local_map_of(s).insert(e.name@, local_info_of(e)));
    } else {
        assert(t.drop_last() =~= s.drop_last().update(i, e));
        assert(t.last() == s.last());
        lemma_local_map_update(s.drop_last(), i, e);
        assert(s.last().name@ != e.name@);
        assert(local_map_of(t) =~~= local_map_of(s).insert(e.name@, local_info_of(e)));
    }
}

struct LocalMap {
    entries: Vec<LocalEntry>,
}

impl LocalMap {
    spec fn wf(&self) -> bool {
        local_entries_wf(self.entries@)
    }

    spec fn view_map(&self) -> Map<Seq<char>, LocalInfo> {
        local_map_of(self.entries@)
    }

    fn new() -> (r: Self)
        ensures
            r.wf(),
            r.view_map() == Map::<Seq<char>, LocalInfo>::empty(),
    {
        LocalMap { entries: Vec::new() }
    }

    fn find(&self, name: &String) -> (r: Option<usize>)
        ensures
            match r {
                Option::Some(i) => i < self.entries@.len() && self.entries@[i as int].name@
                    == name@,
                Option::None => forall|i: int|
                    0 <= i < self.entries@.len() ==> (#[trigger] self.entries@[i]).name@ != name@,
            },
    {
        let mut i: usize = 0;
        while i < self.entries.len()
            invariant
                0 <= i <= self.entries@.len(),
                forall|j: int| 0 <= j < i ==> (#[trigger] self.entries@[j]).name@ != name@,
            decreases self.entries@.len() - i,
        {
            if self.entries[i].name.eq(name) {
                return Option::Some(i);
            }
            i = i + 1;
        }
        Option::None
    }

    /// Folds one type contribution in, as `local_add` describes.
    fn contribute(&mut self, name: &String, version: &String, label: String)
        requires
            old(self).wf(),
            version.is_ascii(),
        ensures
            final(self).wf(),
            final(self).view_map() == local_add(old(self).view_map(), name@, version@, label@),
    {
        let found = self.find(name);
        match found {
            Option::Some(i) => {
                proof {
                    lemma_local_map_value(self.entries@, i as int);
                }
                let mut tmp = LocalEntry {
                    name: String::new(),
                    version: String::new(),
                    types: TypeSet::new(),
                };
                core::mem::swap(&mut self.entries[i], &mut tmp);
                let ghost mid = self.entries@;
                tmp.types.insert(label);
                let cmp = compare_version_strings(version, &tmp.version);
                if matches!(cmp, Ordering::Greater) {
                    tmp.version = version.clone();
                }
                core::mem::swap(&mut self.entries[i], &mut tmp);
                proof {
                    assert(self.entries@ =~= old(self).entries@.update(
                        i as int,
                        self.entries@[i as int],
                    ));
                    lemma_local_map_update(
                        old(self).entries@,
                        i as int,
                        self.entries@[i as int],
                    );
                    assert(self.view_map() =~~= local_add(
                        old(self).view_map(),
                        name@,
                        version@,
                        label@,
                    ));
                }
            },
            Option::None => {
                proof {
                    lemma_local_map_dom(self.entries@, name@);
                }
                self.entries.push(
                    LocalEntry {
                        name: name.clone(),
                        version: version.clone(),
                        types: TypeSet::singleton(label),
                    },
                );
                proof {
                    assert(self.entries@.drop_last() =~= old(self).entries@);
                    assert(self.view_map() =~~= local_add(
                        old(self).view_map(),
                        name@,
                        version@,
                        label@,
                    ));
                }
            },
        }
    }
}

// ---------------------------------------------------------------------------
// The built mapping
// ---------------------------------------------------------------------------

/// One stored row: a (package, group key, version) triple and its labels.
pub struct MappingEntry {
    pub package: String,
    pub group_key: String,
    pub version: String,
    pub types: TypeSet,
}

pub open spec fn row_key(e: MappingEntry) -> RowKey {
    RowKey { package: e.package@, group_key: e.group_key@, version: e.version@ }
}

/// The map a sequence of stored rows denotes; rows sharing a key pool
/// their labels, so the denotation is total.
pub open spec fn map_of(s: Seq<MappingEntry>) -> MappingView
    decreases s.len(),
{
    if s.len() == 0 {
        Map::empty()
    } else {
        let m = map_of(s.drop_last());
        let k = row_key(s.last());
        m.insert(k, types_at(m, k) + s.last().types@)
    }
}

/// The package-indexed report: one entry per observed triple.
pub struct MadisonMapping {
    pub entries: Vec<MappingEntry>,
}

impl View for MadisonMapping {
    type V = MappingView;

    open spec fn view(&self) -> MappingView {
        map_of(self.entries@)
    }
}

impl MadisonMapping {
    /// Distinct triples, well-formed label sets, comparator-safe versions.
    pub open spec fn wf(&self) -> bool {
        &&& forall|i: int, j: int|
            0 <= i < j < self.entries@.len() ==> row_key(self.entries@[i]) != row_key(
                self.entries@[j],
            )
        &&& forall|i: int| 0 <= i < self.entries@.len() ==> (#[trigger] self.entries@[i]).types.wf()
        &&& forall|i: int|
            0 <= i < self.entries@.len() ==> is_ascii_chars(
                (#[trigger] self.entries@[i]).version@,
            )
    }

    /// An empty report, the state before anything was built.
    pub fn new() -> (r: Self)
        ensures
            r.wf(),
            r@ == Map::<RowKey, Set<Seq<char>>>::empty(),
            r.entries@.len() == 0,
    {
        MadisonMapping { entries: Vec::new() }
    }
}

proof fn lemma_map_of_dom(s: Seq<MappingEntry>, k: RowKey)
    ensures
        map_of(s).dom().contains(k) <==> exists|i: int|
            0 <= i < s.len() && row_key(#[trigger] s[i]) == k,
    decreases s.len(),
{
    if s.len() > 0 {
        lemma_map_of_dom(s.drop_last(), k);
        if map_of(s).dom().contains(k) {
            if row_key(s.last()) != k {
                let i = choose|i: int|
                    0 <= i < s.drop_last().len() && row_key(#[trigger] s.drop_last()[i]) == k;
                assert(row_key(s[i]) == k);
            } else {
                assert(row_key(s[s.len() - 1]) == k);
            }
        }
        if exists|i: int| 0 <= i < s.len() && row_key(#[trigger] s[i]) == k {
            let i = choose|i: int| 0 <= i < s.len() && row_key(#[trigger] s[i]) == k;
            if i < s.len() - 1 {
                assert(row_key(s.drop_last()[i]) == k);
            }
        }
    }
}

proof fn lemma_map_of_value(s: Seq<MappingEntry>, i: int)
    requires
        forall|p: int, q: int| 0 <= p < q < s.len() ==> row_key(s[p]) != row_key(s[q]),
        0 <= i < s.len(),
    ensures
        map_of(s).dom().contains(row_key(s[i])),
        map_of(s)[row_key(s[i])] == s[i].types@,
    decreases s.len(),
{
    if i == s.len() - 1 {
        lemma_map_of_dom(s.drop_last(), row_key(s.last()));
        assert(forall|p: int|
            0 <= p < s.drop_last().len() ==> row_key(#[trigger] s.drop_last()[p]) != row_key(
                s.last(),
            ));
        assert(types_at(map_of(s.drop_last()), row_key(s.last())) =~= Set::empty());
        assert(Set::empty() + s[i].types@ =~= s[i].types@);
    } else {
        lemma_map_of_value(s.drop_last(), i);
        assert(s.drop_last()[i] == s[i]);
        assert(row_key(s.last()) != row_key(s[i]));
    }
}

proof fn lemma_map_of_update(s: Seq<MappingEntry>, i: int, e: MappingEntry)
    requires
        forall|p: int, q: int| 0 <= p < q < s.len() ==> row_key(s[p]) != row_key(s[q]),
        0 <= i < s.len(),
        row_key(e) == row_key(s[i]),
    ensures
        map_of(s.update(i, e)) == map_of(s).insert(row_key(e), e.types@),
    decreases s.len(),
{
    let t = s.update(i, e);
    if i == s.len() - 1 {
        assert(t.drop_last() =~= s.drop_last());
        assert(t.last() == e);
        lemma_map_of_dom(s.drop_last(), row_key(e));
        assert(forall|p: int|
            0 <= p < s.drop_last().len() ==> row_key(#[trigger] s.drop_last()[p]) != row_key(e));
        assert(types_at(map_of(s.drop_last()), row_key(e)) =~= Set::empty());
        assert(Set::empty() + e.types@ =~= e.types@);
        assert(Set::empty() + s[i].types@ =~= s[i].types@);
        assert(map_of(t) =~~= map_of(s).insert(row_key(e), e.types@));
    } else {
        assert(t.drop_last() =~= s.drop_last().update(i, e));
        assert(t.last() == s.last());
        lemma_map_of_update(s.drop_last(), i, e);
        assert(row_key(s.last()) != row_key(e));
        assert(types_at(map_of(s.drop_last()).insert(row_key(e), e.types@), row_key(s.last()))
            =~= types_at(map_of(s.drop_last()), row_key(s.last())));
        assert(map_of(t) =~~= map_of(s).insert(row_key(e), e.types@));
    }
}

proof fn lemma_map_of_push_fresh(s: Seq<MappingEntry>, e: MappingEntry)
    requires
        forall|p: int| 0 <= p < s.len() ==> row_key(#[trigger] s[p]) != row_key(e),
    ensures
        map_of(s.push(e)) == map_of(s).insert(row_key(e), e.types@),
{
    assert(s.push(e).drop_last() =~= s);
    assert(s.push(e).last() == e);
    lemma_map_of_dom(s, row_key(e));
    assert(types_at(map_of(s), row_key(e)) =~= Set::empty());
    assert(Set::empty() + e.types@ =~= e.types@);
}

// ---------------------------------------------------------------------------
// Scanning one listing
// ---------------------------------------------------------------------------

/// Laying one fresh name into a local map lays one fresh row key into its
/// keyed rows.
proof fn lemma_keyed_rows_insert(
    m: Map<Seq<char>, LocalInfo>,
    key: Seq<char>,
    name: Seq<char>,
    info: LocalInfo,
)
    requires
        !m.dom().contains(name),
    ensures
        keyed_rows(m.insert(name, info), key) == keyed_rows(m, key).insert(
            RowKey { package: name, group_key: key, version: info.version },
            info.types,
        ),
{
    let lhs = keyed_rows(m.insert(name, info), key);
    let rhs = keyed_rows(m, key).insert(
        RowKey { package: name, group_key: key, version: info.version },
        info.types,
    );
    assert forall|k: RowKey| lhs.dom().contains(k) <==> rhs.dom().contains(k) by {}
    assert forall|k: RowKey| lhs.dom().contains(k) implies lhs[k] == rhs[k] by {}
    assert(lhs =~~= rhs);
}

proof fn lemma_scan_convert(s: Seq<LocalEntry>, key: Seq<char>, conv: Seq<MappingEntry>)
    requires
        conv.len() == s.len(),
        forall|p: int, q: int| 0 <= p < q < s.len() ==> s[p].name@ != s[q].name@,
        forall|j: int|
            0 <= j < s.len() ==> {
                &&& (#[trigger] conv[j]).package@ == s[j].name@
                &&& conv[j].group_key@ == key
                &&& conv[j].version@ == s[j].version@
                &&& conv[j].types@ == s[j].types@
            },
    ensures
        map_of(conv) == keyed_rows(local_map_of(s), key),
    decreases s.len(),
{
    if s.len() == 0 {
        assert(map_of(conv) =~~= keyed_rows(local_map_of(s), key));
    } else {
        lemma_scan_convert(s.drop_last(), key, conv.drop_last());
        lemma_local_map_dom(s.drop_last(), s.last().name@);
        assert(forall|p: int|
            0 <= p < s.drop_last().len() ==> (#[trigger] s.drop_last()[p]).name@ != s.last().name@);
        lemma_keyed_rows_insert(
            local_map_of(s.drop_last()),
            key,
            s.last().name@,
            local_info_of(s.last()),
        );
        lemma_map_of_dom(conv.drop_last(), row_key(conv.last()));
        assert(forall|p: int|
            0 <= p < conv.drop_last().len() ==> row_key(#[trigger] conv.drop_last()[p]) != row_key(
                conv.last(),
            ));
        assert(types_at(map_of(conv.drop_last()), row_key(conv.last())) =~= Set::empty());
        assert(Set::empty() + conv.last().types@ =~= conv.last().types@);
        assert(row_key(conv.last()) == RowKey {
            package: s.last().name@,
            group_key: key,
            version: local_info_of(s.last()).version,
        });
        assert(map_of(conv) =~~= keyed_rows(local_map_of(s), key));
    }
}

/// Scans one listing into its own partial report: every record contributes
/// "source" at its resolved source package and the listing's architecture
/// label at its own name, while each name's version advances to the highest
/// one the comparator sees.
pub fn scan_listing(l: &Listing, choice: KeyChoice) -> (r: MadisonMapping)
    requires
        listing_versions_ascii(l@),
    ensures
        r.wf(),
        r@ == listing_contrib(l@, choice),
{
    let ghost arch = arch_label(l@.descriptor);
    let mut local = LocalMap::new();
    let mut idx: usize = 0;
    proof {
        assert(l@.records.take(0) =~= Seq::<PackageRecordView>::empty());
    }
    while idx < l.records.len()
        invariant
            0 <= idx <= l.records@.len(),
            l@.records.len() == l.records@.len(),
            listing_versions_ascii(l@),
            local.wf(),
            local.view_map() == local_scan(l@.records.take(idx as int), arch_label(l@.descriptor)),
        decreases l.records@.len() - idx,
    {
        let rec = &l.records[idx];
        proof {
            assert(l@.records[idx as int] == rec@);
            assert(is_ascii_chars(l@.records[idx as int].version));
            assert(rec.version@ == l@.records[idx as int].version);
        }
        let resolved: &String = match &rec.source {
            Option::Some(s) => s,
            Option::None => &rec.name,
        };
        local.contribute(resolved, &rec.version, "source".to_owned());
        let label: String = match &l.descriptor.arch {
            Option::Some(a) => a.clone(),
            Option::None => "unknown!".to_owned(),
        };
        local.contribute(&rec.name, &rec.version, label);
        proof {
            assert(l@.records.take(idx + 1).drop_last() =~= l@.records.take(idx as int));
            assert(l@.records.take(idx + 1).last() == l@.records[idx as int]);
        }
        idx = idx + 1;
    }
    proof {
        assert(l@.records.take(l.records@.len() as int) =~= l@.records);
    }
    let key = apply_key(&choice, &l.descriptor);
    let mut out: Vec<MappingEntry> = Vec::new();
    let mut j: usize = 0;
    while j < local.entries.len()
        invariant
            0 <= j <= local.entries@.len(),
            out@.len() == j,
            local.wf(),
            key@ == key_of(choice, l@.descriptor),
            forall|p: int|
                0 <= p < j ==> {
                    &&& (#[trigger] out@[p]).package@ == local.entries@[p].name@
                    &&& out@[p].group_key@ == key@
                    &&& out@[p].version@ == local.entries@[p].version@
                    &&& out@[p].types@ == local.entries@[p].types@
                    &&& out@[p].types.wf()
                },
        decreases local.entries@.len() - j,
    {
        let src = &local.entries[j];
        out.push(
            MappingEntry {
                package: src.name.clone(),
                group_key: key.clone(),
                version: src.version.clone(),
                types: src.types.copied(),
            },
        );
        j = j + 1;
    }
    let r = MadisonMapping { entries: out };
    proof {
        lemma_scan_convert(local.entries@, key@, r.entries@);
    }
    r
}

// ---------------------------------------------------------------------------
// Merging partial reports
// ---------------------------------------------------------------------------

/// Merging nothing changes nothing.
proof fn lemma_merge_empty(m: MappingView)
    ensures
        merge_views(m, Map::empty()) == m,
{
    assert forall|k: RowKey| m.dom().contains(k) implies merge_views(m, Map::empty())[k] == m[k] by {
        assert(types_at(m, k) + types_at(Map::empty(), k) =~= m[k]);
    }
    assert(merge_views(m, Map::empty()) =~~= m);
}

/// A key fresh to the right side merges as one inserted row.
proof fn lemma_merge_insert(m0: MappingView, mb: MappingView, k: RowKey, v: Set<Seq<char>>)
    requires
        !mb.dom().contains(k),
    ensures
        merge_views(m0, mb.insert(k, v)) == merge_views(m0, mb).insert(k, types_at(m0, k) + v),
{
    let lhs = merge_views(m0, mb.insert(k, v));
    let rhs = merge_views(m0, mb).insert(k, types_at(m0, k) + v);
    assert forall|q: RowKey| lhs.dom().contains(q) <==> rhs.dom().contains(q) by {}
    assert forall|q: RowKey| lhs.dom().contains(q) implies lhs[q] == rhs[q] by {
        if q != k {
            assert(types_at(mb.insert(k, v), q) =~= types_at(mb, q));
        } else {
            assert(types_at(mb.insert(k, v), k) =~= v);
        }
    }
    assert(lhs =~~= rhs);
}

/// Folds one partial report into an accumulated one: for every key both
/// know, the label sets pool; fresh keys are adopted as they are. This is
/// the commutative, associative union the parallel scan relies on.
pub fn merge_mappings(acc: &mut MadisonMapping, part: &MadisonMapping)
    requires
        old(acc).wf(),
        part.wf(),
    ensures
        final(acc).wf(),
        final(acc)@ == merge_views(old(acc)@, part@),
{
    let ghost m0 = old(acc)@;
    let mut j: usize = 0;
    proof {
        assert(part.entries@.take(0) =~= Seq::<MappingEntry>::empty());
        lemma_merge_empty(m0);
        assert(map_of(part.entries@.take(0)) =~~= Map::<RowKey, Set<Seq<char>>>::empty());
    }
    while j < part.entries.len()
        invariant
            0 <= j <= part.entries@.len(),
            part.wf(),
            acc.wf(),
            acc@ == merge_views(m0, map_of(part.entries@.take(j as int))),
        decreases part.entries@.len() - j,
    {
        let e = &part.entries[j];
        let found = find_entry(acc, &e.package, &e.group_key, &e.version);
        proof {
            lemma_map_of_dom(part.entries@.take(j as int), row_key(part.entries@[j as int]));
            assert(forall|p: int|
                0 <= p < j ==> row_key(#[trigger] part.entries@.take(j as int)[p]) != row_key(
                    part.entries@[j as int],
                ));
            assert(part.entries@.take(j + 1).drop_last() =~= part.entries@.take(j as int));
            assert(part.entries@.take(j + 1).last() == part.entries@[j as int]);
        }
        let ghost pre = acc.entries@;
        let ghost mb = map_of(part.entries@.take(j as int));
        let ghost k = row_key(part.entries@[j as int]);
        proof {
            assert(types_at(mb, k) =~= Set::empty());
            assert(Set::empty() + part.entries@[j as int].types@ =~= part.entries@[
                j as int
            ].types@);
            assert(map_of(part.entries@.take(j + 1)) == mb.insert(
                k,
                part.entries@[j as int].types@,
            ));
            lemma_merge_insert(m0, mb, k, part.entries@[j as int].types@);
        }
        match found {
            Option::Some(i) => {
                proof {
                    lemma_map_of_value(pre, i as int);
                    assert(map_of(pre)[k] == pre[i as int].types@);
                    assert(map_of(pre)[k] == types_at(m0, k) + types_at(mb, k));
                }
                let mut tmp = MappingEntry {
                    package: String::new(),
                    group_key: String::new(),
                    version: String::new(),
                    types: TypeSet::new(),
                };
                core::mem::swap(&mut acc.entries[i], &mut tmp);
                tmp.types.extend_from(&e.types);
                core::mem::swap(&mut acc.entries[i], &mut tmp);
                proof {
                    assert(acc.entries@ =~= pre.update(i as int, acc.entries@[i as int]));
                    lemma_map_of_update(pre, i as int, acc.entries@[i as int]);
                    assert(acc.entries@[i as int].types@ =~= types_at(m0, k) + part.entries@[
                        j as int
                    ].types@);
                    assert(acc@ =~~= merge_views(m0, map_of(part.entries@.take(j + 1))));
                }
            },
            Option::None => {
                proof {
                    lemma_map_of_dom(pre, k);
                    assert(!map_of(pre).dom().contains(k));
                    assert(!m0.dom().contains(k));
                    assert(types_at(m0, k) =~= Set::empty());
                }
                acc.entries.push(
                    MappingEntry {
                        package: e.package.clone(),
                        group_key: e.group_key.clone(),
                        version: e.version.clone(),
                        types: e.types.copied(),
                    },
                );
                proof {
                    lemma_map_of_push_fresh(pre, acc.entries@[acc.entries@.len() - 1]);
                    assert(acc.entries@.drop_last() =~= pre);
                    assert(acc.entries@ =~= pre.push(acc.entries@[acc.entries@.len() - 1]));
                    assert(types_at(m0, k) + part.entries@[j as int].types@ =~= part.entries@[
                        j as int
                    ].types@);
                    assert(acc@ =~~= merge_views(m0, map_of(part.entries@.take(j + 1))));
                }
            },
        }
        j = j + 1;
    }
    proof {
        assert(part.entries@.take(part.entries@.len() as int) =~= part.entries@);
    }
}

// ---------------------------------------------------------------------------
// Building the whole report
// ---------------------------------------------------------------------------

/// Why a build was aborted: a record carries a version string the external
/// comparator cannot take (it is not ASCII), so the listing counts as
/// malformed and no partial result is published.
#[derive(Clone, Copy, PartialEq, Eq, Structural, Debug)]
pub enum BuildError {
    MalformedVersion,
}

/// Checks that every record of one listing has a comparator-safe version.
pub fn listing_versions_ok(l: &Listing) -> (r: bool)
    ensures
        r == listing_versions_ascii(l@),
{
    let mut i: usize = 0;
    while i < l.records.len()
        invariant
            0 <= i <= l.records@.len(),
            l@.records.len() == l.records@.len(),
            forall|j: int| 0 <= j < i ==> is_ascii_chars(#[trigger] l@.records[j].version),
        decreases l.records@.len() - i,
    {
        let rec = &l.records[i];
        proof {
            assert(l@.records[i as int] == rec@);
        }
        if !rec.version.is_ascii() {
            proof {
                assert(!is_ascii_chars(l@.records[i as int].version));
            }
            return false;
        }
        i = i + 1;
    }
    true
}

/// Checks every listing of a set the same way.
pub fn listings_versions_ok(listings: &Vec<Listing>) -> (r: bool)
    ensures
        r == listings_versions_ascii(listings@.map_values(|l: Listing| l@)),
{
    let ghost vs = listings@.map_values(|l: Listing| l@);
    let mut i: usize = 0;
    while i < listings.len()
        invariant
            0 <= i <= listings@.len(),
            vs == listings@.map_values(|l: Listing| l@),
            vs.len() == listings@.len(),
            forall|j: int| 0 <= j < i ==> listing_versions_ascii(#[trigger] vs[j]),
        decreases listings@.len() - i,
    {
        if !listing_versions_ok(&listings[i]) {
            proof {
                assert(vs[i as int] == listings@[i as int]@);
            }
            return false;
        }
        proof {
            assert(vs[i as int] == listings@[i as int]@);
        }
        i = i + 1;
    }
    true
}

/// Builds the full report from a listing snapshot: every listing is scanned
/// on its own and the partial results are pooled by the order-independent
/// union. A malformed version string aborts the whole build; nothing partial
/// comes back.
pub fn build_madison_mapping(listings: &Vec<Listing>, choice: KeyChoice) -> (r: Result<
    MadisonMapping,
    BuildError,
>)
    ensures
        ({
            let vs = listings@.map_values(|l: Listing| l@);
            match r {
                Result::Ok(m) => listings_versions_ascii(vs) && m.wf() && m@ == build_view(
                    vs,
                    choice,
                ),
                Result::Err(e) => !listings_versions_ascii(vs) && e == BuildError::MalformedVersion,
            }
        }),
{
    let ghost vs = listings@.map_values(|l: Listing| l@);
    if !listings_versions_ok(listings) {
        return Result::Err(BuildError::MalformedVersion);
    }
    let mut acc = MadisonMapping::new();
    let mut i: usize = 0;
    proof {
        assert(acc@ =~~= build_prefix(vs, choice, 0));
    }
    while i < listings.len()
        invariant
            0 <= i <= listings@.len(),
            vs == listings@.map_values(|l: Listing| l@),
            vs.len() == listings@.len(),
            listings_versions_ascii(vs),
            acc.wf(),
            acc@ == build_prefix(vs, choice, i as int),
        decreases listings@.len() - i,
    {
        proof {
            assert(vs[i as int] == listings@[i as int]@);
            assert(listing_versions_ascii(vs[i as int]));
        }
        let part = scan_listing(&listings[i], choice);
        merge_mappings(&mut acc, &part);
        i = i + 1;
    }
    Result::Ok(acc)
}

// ---------------------------------------------------------------------------
// Laws of the build
// ---------------------------------------------------------------------------

/// The pooled labels the first `n` listings contribute for one key.
pub open spec fn contribs_at(ls: Seq<ListingView>, choice: KeyChoice, k: RowKey, n: int) -> Set<
    Seq<char>,
>
    decreases n,
{
    if n <= 0 {
        Set::empty()
    } else {
        contribs_at(ls, choice, k, n - 1) + types_at(listing_contrib(ls[n - 1], choice), k)
    }
}

proof fn lemma_union_prefix(ls: Seq<ListingView>, choice: KeyChoice, k: RowKey, n: int)
    requires
        0 <= n <= ls.len(),
    ensures
        types_at(build_prefix(ls, choice, n), k) == contribs_at(ls, choice, k, n),
        build_prefix(ls, choice, n).dom().contains(k) <==> exists|i: int|
            0 <= i < n && listing_contrib(#[trigger] ls[i], choice).dom().contains(k),
    decreases n,
{
    if n > 0 {
        lemma_union_prefix(ls, choice, k, n - 1);
        let a = build_prefix(ls, choice, n - 1);
        let b = listing_contrib(ls[n - 1], choice);
        if !a.dom().contains(k) && !b.dom().contains(k) {
            assert(types_at(merge_views(a, b), k) =~= types_at(a, k) + types_at(b, k));
        }
        if build_prefix(ls, choice, n).dom().contains(k) {
            if b.dom().contains(k) {
                assert(listing_contrib(ls[n - 1], choice).dom().contains(k));
            }
        }
        if exists|i: int|
            0 <= i < n && listing_contrib(#[trigger] ls[i], choice).dom().contains(k) {
            let i = choose|i: int|
                0 <= i < n && listing_contrib(#[trigger] ls[i], choice).dom().contains(k);
            if i < n - 1 {
                assert(a.dom().contains(k));
            }
        }
    }
}

/// Union correctness: for every (package, group key, version) triple, the
/// built report stores exactly the union of what each listing contributes
/// for that triple — nothing dropped, nothing invented.
pub proof fn lemma_union_correctness(ls: Seq<ListingView>, choice: KeyChoice, k: RowKey)
    ensures
        types_at(build_view(ls, choice), k) == contribs_at(ls, choice, k, ls.len() as int),
        build_view(ls, choice).dom().contains(k) <==> exists|i: int|
            0 <= i < ls.len() && listing_contrib(#[trigger] ls[i], choice).dom().contains(k),
{
    lemma_union_prefix(ls, choice, k, ls.len() as int);
}

/// Pooling partial results is order-independent: merging two partial
/// reports gives the same report either way around.
pub proof fn lemma_merge_commutes(a: MappingView, b: MappingView)
    ensures
        merge_views(a, b) == merge_views(b, a),
{
    assert forall|k: RowKey|
        merge_views(a, b).dom().contains(k) implies merge_views(a, b)[k] == merge_views(b, a)[k] by {
        assert(types_at(a, k) + types_at(b, k) =~= types_at(b, k) + types_at(a, k));
    }
    assert(merge_views(a, b) =~~= merge_views(b, a));
}

/// Idempotence of the rebuild: two builds over the same listing snapshot
/// denote the same report, so an unchanged set rebuilt twice changes
/// nothing.
pub proof fn lemma_rebuild_idempotent(
    ls: Seq<ListingView>,
    choice: KeyChoice,
    m1: MappingView,
    m2: MappingView,
)
    requires
        m1 == build_view(ls, choice),
        m2 == build_view(ls, choice),
    ensures
        m1 == m2,
{
}

/// Looks a triple up among the stored rows.
fn find_entry(m: &MadisonMapping, package: &String, group_key: &String, version: &String) -> (r:
    Option<usize>)
    ensures
        match r {
            Option::Some(i) => i < m.entries@.len() && row_key(m.entries@[i as int]) == (RowKey {
                package: package@,
                group_key: group_key@,
                version: version@,
            }),
            Option::None => forall|i: int|
                0 <= i < m.entries@.len() ==> row_key(#[trigger] m.entries@[i]) != (RowKey {
                    package: package@,
                    group_key: group_key@,
                    version: version@,
                }),
        },
{
    let mut i: usize = 0;
    while i < m.entries.len()
        invariant
            0 <= i <= m.entries@.len(),
            forall|p: int|
                0 <= p < i ==> row_key(#[trigger] m.entries@[p]) != (RowKey {
                    package: package@,
                    group_key: group_key@,
                    version: version@,
                }),
        decreases m.entries@.len() - i,
    {
        let e = &m.entries[i];
        if e.package.eq(package) && e.group_key.eq(group_key) && e.version.eq(version) {
            return Option::Some(i);
        }
        i = i + 1;
    }
    Option::None
}

} // verus!
