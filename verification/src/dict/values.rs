//! The entries of a dictionary in the encoding of `bincode`.

use vstd::prelude::*;

verus! {

/// What `bincode` reports when it cannot encode or decode a value.
#[verifier::external_type_specification]
#[verifier::external_body]
pub struct ExErrorKind(bincode::ErrorKind);

/// An entry as it is encoded: surface, cost, left id and right id.
pub type Row = (String, i16, u16, u16);

/// What a row holds.
pub type RowView = (Seq<char>, i16, u16, u16);

pub open spec fn row_view(r: Row) -> RowView {
    (r.0@, r.1, r.2, r.3)
}

pub open spec fn row_views(rows: Seq<Row>) -> Seq<RowView> {
    Seq::new(rows.len(), |i: int| row_view(rows[i]))
}

pub open spec fn table_view(table: Seq<Vec<Row>>) -> Seq<Seq<RowView>> {
    Seq::new(table.len(), |i: int| row_views(table[i]@))
}

/// The encoding of rows.
pub uninterp spec fn values_image(table: Seq<Seq<(Seq<char>, i16, u16, u16)>>) -> Seq<u8>;

/// The rows that bytes decode to, if they do.
pub uninterp spec fn values_of(
    bytes: Seq<u8>,
) -> Option<Seq<Seq<(Seq<char>, i16, u16, u16)>>>;

/// `bincode::serialize` encodes a list of lists of rows. It has no limit on the
/// size, and fails only on sequences of unknown length and on values that
/// cannot be encoded, which rows are not.
#[verifier::external_body]
pub(crate) fn encode_values(table: &Vec<Vec<Row>>) -> (r: Result<Vec<u8>, Box<bincode::ErrorKind>>)
    ensures
        r is Ok,
        r->Ok_0@ == values_image(table_view(table@)),
{
    bincode::serialize(table)
}

/// `bincode::deserialize` decodes what `bincode::serialize` encoded, and reports
/// bytes that decode to no rows.
#[verifier::external_body]
pub(crate) fn decode_values(bytes: &[u8]) -> (r: Result<Vec<Vec<Row>>, Box<bincode::ErrorKind>>)
    ensures
        r is Ok <==> values_of(bytes@) is Some,
        r is Ok ==> Some(table_view(r->Ok_0@)) == values_of(bytes@),
        forall|table: Seq<Seq<RowView>>|
            bytes@ == #[trigger] values_image(table) ==> r is Ok && table_view(r->Ok_0@) == table,
{
    bincode::deserialize(bytes)
}

} // verus!
