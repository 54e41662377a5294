use vstd::prelude::*;

verus! {

/// Declares tabled's row builder, which collects the table's rows before
/// they are laid out; its contents are tracked by `builder_rows` alone.
#[verifier::external_type_specification]
#[verifier::external_body]
pub struct ExBuilder(tabled::builder::Builder);

/// The rows pushed into a table builder so far, each as its four cells.
pub uninterp spec fn builder_rows(b: tabled::builder::Builder) -> Seq<
    (Seq<char>, Seq<char>, Seq<char>, Seq<char>),
>;

/// The raw text the table layout produces for the given rows: columns
/// padded to equal width and separated by a vertical bar, lines separated
/// by newlines. A deterministic function of the cell text alone.
pub uninterp spec fn table_layout(rows: Seq<(Seq<char>, Seq<char>, Seq<char>, Seq<char>)>) -> Seq<
    char,
>;

/// Relies on tabled::builder::Builder::default: a builder holding no rows.
#[verifier::external_body]
pub fn builder_new() -> (r: tabled::builder::Builder)
    ensures
        builder_rows(r) == Seq::<(Seq<char>, Seq<char>, Seq<char>, Seq<char>)>::empty(),
{
    tabled::builder::Builder::default()
}

/// Relies on tabled::builder::Builder::push_record: rows of equal width
/// are appended to the builder's data as they are.
#[verifier::external_body]
pub fn builder_push_row(
    b: &mut tabled::builder::Builder,
    package: &String,
    version: &String,
    codename: &String,
    architectures: &String,
)
    ensures
        builder_rows(*final(b)) == builder_rows(*old(b)).push(
            (package@, version@, codename@, architectures@),
        ),
{
    b.push_record(
        [package.as_str(), version.as_str(), codename.as_str(), architectures.as_str()],
    );
}

/// Relies on tabled's Builder::build, Style::empty().vertical('|') and the
/// Display of Table: the raw layout of the pushed rows. An empty builder
/// builds an empty table, which displays as nothing at all.
#[verifier::external_body]
pub fn builder_layout(b: tabled::builder::Builder) -> (r: String)
    ensures
        r@ == table_layout(builder_rows(b)),
        builder_rows(b).len() == 0 ==> r@ == Seq::<char>::empty(),
{
    let mut table = b.build();
    table.with(tabled::settings::Style::empty().vertical('|')).to_string()
}

} // verus!
