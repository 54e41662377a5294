use vstd::prelude::*;

verus! {

/// One repository index file: a distribution codename, a component, and
/// either an architecture name (a binary listing) or none (a source listing).
pub struct ListingDescriptor {
    pub codename: String,
    pub component: String,
    pub arch: Option<String>,
}

pub ghost struct ListingDescriptorView {
    pub codename: Seq<char>,
    pub component: Seq<char>,
    pub arch: Option<Seq<char>>,
}

impl View for ListingDescriptor {
    type V = ListingDescriptorView;

    open spec fn view(&self) -> ListingDescriptorView {
        ListingDescriptorView {
            codename: self.codename@,
            component: self.component@,
            arch: match self.arch {
                Option::Some(a) => Option::Some(a@),
                Option::None => Option::None,
            },
        }
    }
}

/// One package stanza read out of a listing. A binary package may name the
/// source package it was built from; absence means the source package has
/// the record's own name.
pub struct PackageRecord {
    pub name: String,
    pub version: String,
    pub source: Option<String>,
}

pub ghost struct PackageRecordView {
    pub name: Seq<char>,
    pub version: Seq<char>,
    pub source: Option<Seq<char>>,
}

impl View for PackageRecord {
    type V = PackageRecordView;

    open spec fn view(&self) -> PackageRecordView {
        PackageRecordView {
            name: self.name@,
            version: self.version@,
            source: match self.source {
                Option::Some(s) => Option::Some(s@),
                Option::None => Option::None,
            },
        }
    }
}

/// A fully read listing: its descriptor and every package record in it.
pub struct Listing {
    pub descriptor: ListingDescriptor,
    pub records: Vec<PackageRecord>,
}

pub ghost struct ListingView {
    pub descriptor: ListingDescriptorView,
    pub records: Seq<PackageRecordView>,
}

impl View for Listing {
    type V = ListingView;

    open spec fn view(&self) -> ListingView {
        ListingView {
            descriptor: self.descriptor@,
            records: self.records@.map_values(|r: PackageRecord| r@),
        }
    }
}

/// Which part of a listing descriptor serves as the group key of the report.
#[derive(Clone, Copy, PartialEq, Eq, Structural)]
pub enum KeyChoice {
    Codename,
    Component,
}

/// The group key that `choice` selects out of a descriptor.
pub open spec fn key_of(choice: KeyChoice, d: ListingDescriptorView) -> Seq<char> {
    match choice {
        KeyChoice::Codename => d.codename,
        KeyChoice::Component => d.component,
    }
}

/// Group key selector over the distribution codename.
pub fn codename(list: &ListingDescriptor) -> (r: String)
    ensures
        r@ == list@.codename,
{
    list.codename.clone()
}

/// Group key selector over the component name.
pub fn component(list: &ListingDescriptor) -> (r: String)
    ensures
        r@ == list@.component,
{
    list.component.clone()
}

/// Applies the selected group key function to a descriptor.
pub fn apply_key(choice: &KeyChoice, list: &ListingDescriptor) -> (r: String)
    ensures
        r@ == key_of(*choice, list@),
{
    match choice {
        KeyChoice::Codename => codename(list),
        KeyChoice::Component => component(list),
    }
}

/// The type label a binary listing contributes: its architecture name, or
/// the sentinel when the listing declares none.
pub open spec fn arch_label(d: ListingDescriptorView) -> Seq<char> {
    match d.arch {
        Option::Some(a) => a,
        Option::None => "unknown!"@,
    }
}

/// The source package a record really belongs to: the declared source
/// field when present, else the record's own name.
pub open spec fn resolved_source(r: PackageRecordView) -> Seq<char> {
    match r.source {
        Option::Some(s) => s,
        Option::None => r.name,
    }
}

/// Startup configuration, as the front ends hand it over.
pub struct MadisonConfig {
    pub sources_list: String,
    pub extra_key_paths: Vec<String>,
    pub arches: Vec<String>,
    pub enable_metrics: bool,
}

/// One rendered row of the madison table.
pub struct MadisonOutputRecord {
    pub package: String,
    pub version: String,
    pub codename: String,
    pub architectures: String,
}

pub ghost struct MadisonOutputRecordView {
    pub package: Seq<char>,
    pub version: Seq<char>,
    pub codename: Seq<char>,
    pub architectures: Seq<char>,
}

impl View for MadisonOutputRecord {
    type V = MadisonOutputRecordView;

    open spec fn view(&self) -> MadisonOutputRecordView {
        MadisonOutputRecordView {
            package: self.package@,
            version: self.version@,
            codename: self.codename@,
            architectures: self.architectures@,
        }
    }
}

impl MadisonOutputRecord {
    pub fn new(package: String, version: String, codename: String, architectures: String) -> (r: Self)
        ensures
            r@.package == package@,
            r@.version == version@,
            r@.codename == codename@,
            r@.architectures == architectures@,
    {
        MadisonOutputRecord { package, version, codename, architectures }
    }
}

} // verus!
