//! The event that tells that an oracle was created.

use crate::codec::{le_u32, scale_u32};
use crate::payload::EventArgs;
use vstd::prelude::*;

verus! {

/// The identifier of an oracle.
pub type OracleId = u32;

/// The identifier of an account: 32 bytes.
pub type AccountId = [u8; 32];

/// The name of the module that keeps the oracles.
pub const ORACLE_MODULE: &'static str = "OracleModule";

/// The name of the event that the module emits when an oracle was created.
pub const ORACLE_CREATED_EVENT: &'static str = "OracleCreated";

/// The name under which the schema knows the type of an oracle's identifier.
pub const ORACLE_ID_TYPE: &'static str = "OracleId";

/// The arguments of the event: the new oracle and the account that created
/// it. On the wire they are the identifier as a little-endian `u32` and the
/// 32 bytes of the account.
#[derive(Debug, Clone, Copy, PartialEq, Eq)]
pub struct OracleCreatedArgs {
    pub oracle: OracleId,
    pub creater: AccountId,
}

impl EventArgs for OracleCreatedArgs {
    open spec fn width() -> nat {
        36
    }

    open spec fn accepts(data: Seq<u8>) -> bool {
        data.len() == 36
    }

    open spec fn decodes(data: Seq<u8>, value: Self) -> bool {
        &&& value.oracle == le_u32(data)
        &&& value.creater@ == data.subrange(4, 36)
    }

    proof fn lemma_decoding_is_strict(data: Seq<u8>) {
    }

    fn decode(data: &[u8]) -> (r: Option<Self>) {
        if data.len() != 36 {
            return None;
        }
        let oracle = match scale_u32(data) {
            Ok(oracle) => oracle,
            Err(_) => {
                return None;
            },
        };
        let mut creater: AccountId = [0u8; 32];
        let mut i: usize = 0;
        while i < 32
            invariant
                i <= 32,
                data@.len() == 36,
                forall|j: int| 0 <= j < i ==> creater@[j] == data@[4 + j],
            decreases 32 - i,
        {
            creater[i] = data[4 + i];
            i = i + 1;
        }
        assert(creater@ =~= data@.subrange(4, 36));
        Some(OracleCreatedArgs { oracle, creater })
    }
}

} // verus!
