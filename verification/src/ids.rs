//! Tenants and timelines.
use crate::text::{
    digit_value, digits_value, law_lower_hex, lemma_number_len, lemma_number_text, lower_hex,
    push_number,
};
use vstd::arithmetic::power::pow;
use vstd::prelude::*;

verus! {

/// A tenant: sixteen bytes, taken as one number with the most significant byte
/// first.
#[derive(Debug, Clone, Copy, PartialEq, Eq, PartialOrd, Ord, Hash, Structural)]
pub struct ZTenantId(pub u128);

/// A timeline: sixteen bytes, taken as one number with the most significant byte
/// first.
#[derive(Debug, Clone, Copy, PartialEq, Eq, PartialOrd, Ord, Hash, Structural)]
pub struct ZTimelineId(pub u128);

/// A timeline together with its tenant.
#[derive(Debug, Clone, Copy, PartialEq, Eq, PartialOrd, Ord, Hash, Structural)]
pub struct TenantTimelineId {
    pub tenant_id: ZTenantId,
    pub timeline_id: ZTimelineId,
}

/// The bytes of an identifier in base sixteen.
pub open spec fn id_text(id: u128) -> Seq<char> {
    lower_hex(id as nat, 32)
}

/// The text of an identifier.
pub fn id_to_string(id: u128) -> (text: String)
    ensures
        text@ == id_text(id),
{
    let mut out: String = String::new();
    push_number(&mut out, id, 16, false, 32);
    assert(out@ =~= id_text(id));
    out
}

/// Every identifier has two digits for each byte, and no two have the same text.
pub proof fn lemma_id_text(id: u128)
    ensures
        id_text(id).len() == 32,
        id_text(id).last() != '/',
        digits_value(id_text(id), 16) == Some(id as nat),
{
    assert(pow(16, 32) == 0x1_0000_0000_0000_0000_0000_0000_0000_0000) by {
        reveal_with_fuel(pow, 33);
    }
    lemma_number_text(id as nat, 16, false, 32);
    lemma_number_len(id as nat, 16, false, 32);
    assert(digit_value(id_text(id)[31], 16) is Some);
}

/// An identifier is written in thirty-two digits of base sixteen with small letters,
/// which have its value.
pub proof fn law_id_text(id: u128)
    ensures
        id_text(id).len() == 32,
        forall|i: int|
            0 <= i < 32 ==> '0' <= #[trigger] id_text(id)[i] <= '9' || 'a' <= id_text(id)[i] <= 'f',
        digits_value(id_text(id), 16) == Some(id as nat),
{
    lemma_id_text(id);
    law_lower_hex(id as nat, 32);
}

} // verus!
