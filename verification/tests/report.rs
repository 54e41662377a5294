use madison_rs::mapping::{build_madison_mapping, scan_listing, merge_mappings, BuildError};
use madison_rs::query::{do_madison, generate_madison_structure, generate_package_rows};
use madison_rs::types::{KeyChoice, Listing, ListingDescriptor, MadisonOutputRecord, PackageRecord};

fn descriptor(codename: &str, component: &str, arch: Option<&str>) -> ListingDescriptor {
    ListingDescriptor {
        codename: codename.to_string(),
        component: component.to_string(),
        arch: arch.map(|a| a.to_string()),
    }
}

fn record(name: &str, version: &str, source: Option<&str>) -> PackageRecord {
    PackageRecord {
        name: name.to_string(),
        version: version.to_string(),
        source: source.map(|s| s.to_string()),
    }
}

fn listing(codename: &str, arch: Option<&str>, records: Vec<PackageRecord>) -> Listing {
    Listing { descriptor: descriptor(codename, "main", arch), records }
}

#[test]
fn single_binary_listing_renders_one_row() {
    // A binary listing carrying foo 1.0; the matching source listing hands
    // the builder no binary records.
    let listings = vec![
        listing("bionic", Some("amd64"), vec![record("foo", "1.0", None)]),
        listing("bionic", None, vec![]),
    ];
    let mapping = build_madison_mapping(&listings, KeyChoice::Codename).unwrap();
    let out = do_madison(&mapping, vec!["foo".to_string()], None);
    assert_eq!(out, "foo | 1.0 | bionic | source, amd64\n");
}

#[test]
fn versions_are_not_collapsed_across_listings() {
    let listings = vec![
        listing("focal", Some("amd64"), vec![record("bar", "1.0", None)]),
        listing("focal", Some("amd64"), vec![record("bar", "2.0", None)]),
    ];
    let mapping = build_madison_mapping(&listings, KeyChoice::Codename).unwrap();
    let out = do_madison(&mapping, vec!["bar".to_string()], None);
    assert_eq!(
        out,
        "bar | 1.0 | focal | source, amd64\nbar | 2.0 | focal | source, amd64\n"
    );
}

#[test]
fn rebuild_from_unchanged_listings_is_identical() {
    let listings = vec![
        listing("focal", Some("amd64"), vec![record("bar", "1.0", None), record("baz", "2.0", Some("bar"))]),
        listing("bionic", Some("i386"), vec![record("bar", "0.9", None)]),
    ];
    let first = build_madison_mapping(&listings, KeyChoice::Codename).unwrap();
    let second = build_madison_mapping(&listings, KeyChoice::Codename).unwrap();
    let packages = vec!["bar".to_string(), "baz".to_string()];
    let out1 = do_madison(&first, packages.clone(), None);
    let out2 = do_madison(&second, packages, None);
    assert_eq!(out1, out2);
}

#[test]
fn type_sets_union_across_listings() {
    // The same (package, group key, version) triple observed under two
    // architectures pools both labels.
    let listings = vec![
        listing("bionic", Some("i386"), vec![record("foo", "1.0", None)]),
        listing("bionic", Some("amd64"), vec![record("foo", "1.0", None)]),
    ];
    let mapping = build_madison_mapping(&listings, KeyChoice::Codename).unwrap();
    let out = do_madison(&mapping, vec!["foo".to_string()], None);
    assert_eq!(out, "foo | 1.0 | bionic | source, amd64, i386\n");
}

#[test]
fn merge_order_does_not_change_content() {
    let a = listing("bionic", Some("i386"), vec![record("foo", "1.0", None)]);
    let b = listing("bionic", Some("amd64"), vec![record("foo", "1.0", None)]);
    let pa = scan_listing(&a, KeyChoice::Codename);
    let pb = scan_listing(&b, KeyChoice::Codename);
    let mut left = scan_listing(&a, KeyChoice::Codename);
    merge_mappings(&mut left, &pb);
    let mut right = scan_listing(&b, KeyChoice::Codename);
    merge_mappings(&mut right, &pa);
    let out_left = do_madison(&left, vec!["foo".to_string()], None);
    let out_right = do_madison(&right, vec!["foo".to_string()], None);
    assert_eq!(out_left, out_right);
}

#[test]
fn rows_sort_ascending_by_debian_version() {
    // 1.9 precedes 1.10 under the Debian order, though not lexically.
    let listings = vec![
        listing("focal", Some("amd64"), vec![record("foo", "2.0", None)]),
        listing("focal", Some("amd64"), vec![record("foo", "1.10", None)]),
        listing("focal", Some("amd64"), vec![record("foo", "1.9", None)]),
    ];
    let mapping = build_madison_mapping(&listings, KeyChoice::Codename).unwrap();
    let structure = generate_madison_structure(&mapping, &vec!["foo".to_string()], None);
    let versions: Vec<&str> = structure.groups[0]
        .rows
        .iter()
        .map(|r| r.version.as_str())
        .collect();
    assert_eq!(versions, vec!["1.9", "1.10", "2.0"]);
}

#[test]
fn equal_versions_order_by_group_key() {
    let listings = vec![
        listing("focal", Some("amd64"), vec![record("foo", "1.0", None)]),
        listing("bionic", Some("amd64"), vec![record("foo", "1.0", None)]),
    ];
    let mapping = build_madison_mapping(&listings, KeyChoice::Codename).unwrap();
    let structure = generate_madison_structure(&mapping, &vec!["foo".to_string()], None);
    let codenames: Vec<&str> = structure.groups[0]
        .rows
        .iter()
        .map(|r| r.codename.as_str())
        .collect();
    assert_eq!(codenames, vec!["bionic", "focal"]);
}

#[test]
fn epoch_and_tilde_follow_debian_rules() {
    // An epoch outranks any plain version; a tilde sorts before release.
    let listings = vec![
        listing("a", Some("amd64"), vec![record("foo", "1:1.0", None)]),
        listing("b", Some("amd64"), vec![record("foo", "2.0", None)]),
        listing("c", Some("amd64"), vec![record("foo", "2.0~rc1", None)]),
    ];
    let mapping = build_madison_mapping(&listings, KeyChoice::Codename).unwrap();
    let structure = generate_madison_structure(&mapping, &vec!["foo".to_string()], None);
    let versions: Vec<&str> = structure.groups[0]
        .rows
        .iter()
        .map(|r| r.version.as_str())
        .collect();
    assert_eq!(versions, vec!["2.0~rc1", "2.0", "1:1.0"]);
}

#[test]
fn source_label_first_then_lexicographic() {
    let listings = vec![
        listing("bionic", Some("i386"), vec![record("foo", "1.0", None)]),
        listing("bionic", Some("arm64"), vec![record("foo", "1.0", None)]),
        listing("bionic", Some("amd64"), vec![record("foo", "1.0", None)]),
    ];
    let mapping = build_madison_mapping(&listings, KeyChoice::Codename).unwrap();
    let structure = generate_madison_structure(&mapping, &vec!["foo".to_string()], None);
    assert_eq!(structure.groups[0].rows[0].architectures, "source, amd64, arm64, i386");
}

#[test]
fn binary_source_field_credits_the_source_package() {
    // A binary built from another source package contributes "source" at
    // that source's name and its architecture at its own name.
    let listings = vec![
        listing("focal", Some("amd64"), vec![record("libbar1", "2.0", Some("bar"))]),
    ];
    let mapping = build_madison_mapping(&listings, KeyChoice::Codename).unwrap();
    let out = do_madison(
        &mapping,
        vec!["bar".to_string(), "libbar1".to_string()],
        None,
    );
    assert_eq!(
        out,
        "bar     | 2.0 | focal | source\nlibbar1 | 2.0 | focal | amd64\n"
    );
}

#[test]
fn missing_architecture_yields_sentinel() {
    // A binary record inside a listing that declares no architecture is
    // tagged with the sentinel label.
    let listings = vec![listing("sid", None, vec![record("foo", "1.0", Some("src"))])];
    let mapping = build_madison_mapping(&listings, KeyChoice::Codename).unwrap();
    let out = do_madison(&mapping, vec!["foo".to_string()], None);
    assert_eq!(out, "foo | 1.0 | sid | unknown!\n");
}

#[test]
fn group_key_filter_restricts_rows() {
    let listings = vec![
        listing("focal", Some("amd64"), vec![record("foo", "1.0", None)]),
        listing("bionic", Some("amd64"), vec![record("foo", "0.9", None)]),
    ];
    let mapping = build_madison_mapping(&listings, KeyChoice::Codename).unwrap();
    let filtered = do_madison(
        &mapping,
        vec!["foo".to_string()],
        Some("focal".to_string()),
    );
    assert_eq!(filtered, "foo | 1.0 | focal | source, amd64\n");
    let all = do_madison(&mapping, vec!["foo".to_string()], None);
    assert_eq!(
        all,
        "foo | 0.9 | bionic | source, amd64\nfoo | 1.0 | focal  | source, amd64\n"
    );
}

#[test]
fn missing_package_yields_zero_rows() {
    let listings = vec![listing("focal", Some("amd64"), vec![record("foo", "1.0", None)])];
    let mapping = build_madison_mapping(&listings, KeyChoice::Codename).unwrap();
    let structure = generate_madison_structure(&mapping, &vec!["nope".to_string()], None);
    assert_eq!(structure.groups.len(), 0);
    let out = do_madison(&mapping, vec!["nope".to_string()], None);
    assert_eq!(out, "\n");
}

#[test]
fn non_ascii_version_aborts_the_build() {
    let listings = vec![listing("focal", Some("amd64"), vec![record("foo", "1.0\u{3b2}", None)])];
    match build_madison_mapping(&listings, KeyChoice::Codename) {
        Err(BuildError::MalformedVersion) => {},
        Ok(_) => panic!("a malformed version must abort the build"),
    }
}

#[test]
fn component_key_groups_by_component() {
    let listings = vec![
        Listing {
            descriptor: descriptor("focal", "universe", Some("amd64")),
            records: vec![record("foo", "1.0", None)],
        },
    ];
    let mapping = build_madison_mapping(&listings, KeyChoice::Component).unwrap();
    let out = do_madison(&mapping, vec!["foo".to_string()], None);
    assert_eq!(out, "foo | 1.0 | universe | source, amd64\n");
}

#[test]
fn highest_version_keeps_all_type_labels() {
    // Within one listing, the version advances to the highest seen while
    // labels observed under lower versions are kept.
    let listings = vec![
        Listing {
            descriptor: descriptor("focal", "main", Some("amd64")),
            records: vec![record("foo", "2.0", Some("bar")), record("bar", "1.0", None)],
        },
    ];
    let mapping = build_madison_mapping(&listings, KeyChoice::Codename).unwrap();
    // "bar" collected "source" from foo's record at version 2.0; its own
    // record carries 1.0, so the highest stays 2.0 with both labels.
    let rows = generate_package_rows(&mapping, &"bar".to_string(), &None);
    assert_eq!(rows.len(), 1);
    assert_eq!(rows[0].version, "2.0");
    assert_eq!(rows[0].architectures, "source, amd64");
}

#[test]
fn duplicate_request_prints_once() {
    let listings = vec![listing("focal", Some("amd64"), vec![record("foo", "1.0", None)])];
    let mapping = build_madison_mapping(&listings, KeyChoice::Codename).unwrap();
    let out = do_madison(
        &mapping,
        vec!["foo".to_string(), "foo".to_string()],
        None,
    );
    assert_eq!(out, "foo | 1.0 | focal | source, amd64\n");
}

#[test]
fn output_lines_are_trimmed_at_both_ends() {
    // A package name starting with a blank would leave the laid-out line
    // with leading padding; the rendered answer strips it, and the line
    // never ends in the layout's padding either.
    let listings = vec![listing("focal", Some("amd64"), vec![record(" pad", "1.0", None)])];
    let mapping = build_madison_mapping(&listings, KeyChoice::Codename).unwrap();
    let out = do_madison(&mapping, vec![" pad".to_string()], None);
    assert_eq!(out, "pad | 1.0 | focal | source, amd64\n");
    assert!(out.ends_with('\n'));
    assert!(!out[..out.len() - 1].ends_with('\n'));
}

#[test]
fn output_record_new_keeps_fields() {
    let r = MadisonOutputRecord::new(
        "pkg".to_string(),
        "1.2".to_string(),
        "sid".to_string(),
        "source".to_string(),
    );
    assert_eq!(r.package, "pkg");
    assert_eq!(r.version, "1.2");
    assert_eq!(r.codename, "sid");
    assert_eq!(r.architectures, "source");
}
