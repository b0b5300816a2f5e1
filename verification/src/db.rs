//! Database-wide rules: the reserved metadata table, the on-disk format
//! version, and which table names a database accepts.

use crate::bytes::{be_bytes, be_value, lemma_be_bytes_len, lemma_be_value_of_bytes, lemma_pow256_values};
use crate::codec::put_u32;
use crate::error::{corrupt, SdbError, SdbResult};
use crate::text::{push_decimal, push_str, str_eq};
use vstd::prelude::*;

verus! {

/// Name of the reserved, file-global metadata table.
pub const METADATA_TABLE_NAME: &'static str = "$metadata";

/// On-disk format version understood by this build.
///
/// Version 2 stores an object's children as separate `(parent, name)` child
/// links; version 3 adds packed entities, a subtree stored as one value;
/// version 4 makes that packed value an archived tree, read in place.
pub const FORMAT_VERSION: u32 = 4;

/// The metadata key holding the format version.
pub const META_FORMAT_VERSION_KEY: &'static str = "format_version";

/// The metadata key holding the secondary-index registry.
pub const META_INDEX_REGISTRY_KEY: &'static str = "index_registry";

/// Checks a table name: it must not be empty, and must not be the reserved
/// metadata table's; either is [`InvalidTableName`](SdbError::InvalidTableName).
pub fn check_table_name(name: &str) -> (r: SdbResult<()>)
    ensures
        r is Ok <==> name@.len() > 0 && name@ != METADATA_TABLE_NAME@,
        r matches Err(e) ==> e is InvalidTableName,
{
    if name.is_empty() {
        let mut msg = String::new();
        push_str(&mut msg, "table name must not be empty");
        return Err(SdbError::InvalidTableName(msg));
    }
    if str_eq(name, METADATA_TABLE_NAME) {
        let mut msg = String::new();
        push_str(&mut msg, "'");
        push_str(&mut msg, name);
        push_str(&mut msg, "' is reserved");
        return Err(SdbError::InvalidTableName(msg));
    }
    Ok(())
}

/// What opening a database does with the stored format version: with none
/// stored yet, the bytes to store (this build's version, big-endian); with
/// this build's version stored, nothing. Anything but four bytes is
/// [`Corrupt`](SdbError::Corrupt); another version is a
/// [`SchemaMismatch`](SdbError::SchemaMismatch).
pub fn check_format_version(current: Option<&[u8]>) -> (r: SdbResult<Option<Vec<u8>>>)
    ensures
        match current {
            None => r matches Ok(Some(b)) && b@ == be_bytes(FORMAT_VERSION as nat, 4),
            Some(b) => if b@.len() != 4 {
                r matches Err(e) && e is Corrupt
            } else if be_value(b@) != FORMAT_VERSION {
                r matches Err(e) && e is SchemaMismatch
            } else {
                r matches Ok(None)
            },
        },
{
    match current {
        None => {
            let mut buf: Vec<u8> = Vec::new();
            put_u32(&mut buf, FORMAT_VERSION);
            Ok(Some(buf))
        },
        Some(bytes) => {
            if bytes.len() != 4 {
                return Err(corrupt("malformed format version"));
            }
            let stored: u32 = ((bytes[0] as u32) * 0x100_0000) + ((bytes[1] as u32) * 0x1_0000) + ((
            bytes[2] as u32) * 0x100) + (bytes[3] as u32);
            proof {
                lemma_be4(bytes@);
            }
            if stored != FORMAT_VERSION {
                let mut msg = String::new();
                push_str(&mut msg, "on-disk format version ");
                push_decimal(&mut msg, stored as u128);
                push_str(&mut msg, ", this build supports ");
                push_decimal(&mut msg, FORMAT_VERSION as u128);
                return Err(SdbError::SchemaMismatch(msg));
            }
            Ok(None)
        },
    }
}

/// The big-endian value of four bytes.
proof fn lemma_be4(b: Seq<u8>)
    requires
        b.len() == 4,
    ensures
        be_value(b) == b[0] * 0x100_0000 + b[1] * 0x1_0000 + b[2] * 0x100 + b[3],
{
    reveal_with_fuel(be_value, 5);
    assert(b.drop_last().drop_last().drop_last().drop_last() =~= Seq::<u8>::empty());
    assert(b.drop_last().drop_last().drop_last() =~= seq![b[0]]);
    assert(b.drop_last().drop_last() =~= seq![b[0], b[1]]);
    assert(b.drop_last() =~= seq![b[0], b[1], b[2]]);
}

} // verus!
