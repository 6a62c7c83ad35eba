//! Identifiers for the rows of a table, made from what the rows hold.

use vstd::prelude::*;
use vstd::string::*;
use vstd::utf8::*;

use crate::fixed2csv::field_views;

verus! {

/// The bytes that are hashed for a record: each field in turn, with a zero
/// byte after it.
pub open spec fn hash_input_spec(record: Seq<Seq<u8>>) -> Seq<u8>
    decreases record.len(),
{
    if record.len() == 0 {
        Seq::empty()
    } else {
        hash_input_spec(record.drop_last()) + record.last() + seq![0u8]
    }
}

/// Puts together the bytes that are hashed for a record.
pub fn hash_input(record: &Vec<Vec<u8>>) -> (out: Vec<u8>)
    ensures
        out@ == hash_input_spec(field_views(record@)),
{
    let mut out: Vec<u8> = Vec::new();
    let mut k: usize = 0;
    assert(field_views(record@).subrange(0, 0) =~= Seq::<Seq<u8>>::empty());
    while k < record.len()
        invariant
            k <= record.len(),
            out@ == hash_input_spec(field_views(record@).subrange(0, k as int)),
        decreases record.len() - k,
    {
        let ghost upto = field_views(record@).subrange(0, k + 1);
        assert(upto.drop_last() =~= field_views(record@).subrange(0, k as int));
        assert(upto.last() == record@[k as int]@);
        let ghost before = out@;
        let field = &record[k];
        let mut i: usize = 0;
        while i < field.len()
            invariant
                i <= field.len(),
                out@ == before + field@.subrange(0, i as int),
            decreases field.len() - i,
        {
            out.push(field[i]);
            assert(out@ =~= before + field@.subrange(0, i + 1));
            i += 1;
        }
        assert(field@.subrange(0, field.len() as int) =~= field@);
        out.push(0);
        assert(out@ =~= before + field@ + seq![0u8]);
        k += 1;
    }
    assert(field_views(record@).subrange(0, record.len() as int) =~= field_views(record@));
    out
}

/// The version 5 UUID of the bytes `name` in the namespace that the text
/// `namespace` stands for, written in lower case with hyphens; `None` where
/// the text stands for no UUID.
pub uninterp spec fn uuid_v5_text(namespace: Seq<char>, name: Seq<u8>) -> Option<Seq<char>>;

/// Makes a version 5 UUID.
///
/// Calls `Uuid::parse_str`, `Uuid::new_v5` and the `Display` formatting of
/// the `uuid` crate.  The UUID is a hash of the namespace and the bytes: the
/// contract gives it a name and says only that it depends on these two
/// alone; a namespace that is no UUID gives nothing.
#[verifier::external_body]
fn make_uuid_v5(namespace: &str, name: &[u8]) -> (r: Option<String>)
    ensures
        match r {
            Some(text) => uuid_v5_text(namespace@, name@) == Some(text@),
            None => uuid_v5_text(namespace@, name@) is None,
        },
{
    let namespace = uuid::Uuid::parse_str(namespace).ok()?;
    Some(uuid::Uuid::new_v5(&namespace, name).to_string())
}

/// The namespace of row identifiers.
pub open spec fn row_namespace() -> Seq<char> {
    "9270e21d-47c3-4395-bf32-c1797115f3fa"@
}

/// The identifier of a record: the version 5 UUID, in the namespace of row
/// identifiers, of all its fields.  Two records with the same fields have
/// the same identifier.
pub open spec fn row_id_text(record: Seq<Seq<u8>>) -> Option<Seq<char>> {
    uuid_v5_text(row_namespace(), hash_input_spec(record))
}

/// Makes the identifier of a record.
pub fn row_id(record: &Vec<Vec<u8>>) -> (r: Option<String>)
    ensures
        match r {
            Some(id) => row_id_text(field_views(record@)) == Some(id@),
            None => row_id_text(field_views(record@)) is None,
        },
{
    // Build a UUID v5 based on a hash of all the fields in our record.
    let hash_buffer = hash_input(record);
    make_uuid_v5("9270e21d-47c3-4395-bf32-c1797115f3fa", hash_buffer.as_slice())
}

/// Adds the name of the identifier column to the header of a table.
pub fn add_id_header(header: &mut Vec<Vec<u8>>, id_column_name: &str)
    ensures
        field_views(final(header)@) == field_views(old(header)@).push(id_column_name.spec_bytes()),
{
    let ghost before = field_views(header@);
    let name = id_column_name.as_bytes_vec();
    header.push(name);
    assert(field_views(header@) =~= before.push(id_column_name.spec_bytes()));
}

/// Adds to a record its identifier, as a last field.  Where no identifier
/// can be made the record stays as it is, and the answer is `false`.
pub fn add_row_id(record: &mut Vec<Vec<u8>>) -> (added: bool)
    ensures
        match row_id_text(field_views(old(record)@)) {
            Some(id) => added && field_views(final(record)@) == field_views(old(record)@).push(
                encode_utf8(id),
            ),
            None => !added && field_views(final(record)@) == field_views(old(record)@),
        },
{
    let ghost before = field_views(record@);
    match row_id(record) {
        Some(id) => {
            // Write our UUID as a string and append it to `record`.
            let uuid_buffer = id.as_str().as_bytes_vec();
            record.push(uuid_buffer);
            assert(field_views(record@) =~= before.push(encode_utf8(id@)));
            true
        },
        None => false,
    }
}

} // verus!
