use vstd::prelude::*;

use crate::error::OrderBookError;
use crate::identity::Identity;

verus! {

/// The associated token account of a wallet for a mint, under the classic
/// token program, as a function of the two identities.
pub uninterp spec fn ata_of(owner: Seq<u8>, mint: Seq<u8>) -> Seq<u8>;

/// Relies on `anchor_spl::associated_token::get_associated_token_address`
/// (spl-associated-token-account-client): it derives the address from the
/// two keys and the fixed program ids alone. The derivation searches for a
/// bump seed and would panic only if none of 255 seeds gave an address off
/// the curve.
#[verifier::external_body]
fn associated_token_address(owner: &Identity, mint: &Identity) -> (r: Identity)
    ensures
        r@ == ata_of(owner@, mint@),
{
    let k = anchor_spl::associated_token::get_associated_token_address(
        &anchor_lang::prelude::Pubkey::new_from_array(owner.bytes),
        &anchor_lang::prelude::Pubkey::new_from_array(mint.bytes),
    );
    Identity { bytes: k.to_bytes() }
}

/// Whether `keys` holds `key`.
pub open spec fn lists(keys: Seq<Identity>, key: Seq<u8>) -> bool {
    exists|i: int| 0 <= i < keys.len() && (#[trigger] keys[i])@ == key
}

/// The first place of `expected` among `keys`.
pub fn position_of(keys: &Vec<Identity>, expected: &Identity) -> (r: Option<usize>)
    ensures
        r is None <==> !lists(keys@, expected@),
        r matches Some(i) ==> i < keys@.len() && keys@[i as int]@ == expected@ && forall|j: int|
            0 <= j < i ==> (#[trigger] keys@[j])@ != expected@,
{
    let mut i: usize = 0;
    while i < keys.len()
        invariant
            0 <= i <= keys@.len(),
            forall|j: int| 0 <= j < i ==> (#[trigger] keys@[j])@ != expected@,
        decreases keys@.len() - i,
    {
        if keys[i] == *expected {
            return Some(i);
        }
        i = i + 1;
    }
    None
}

/// Finds, among the accounts handed in for a settlement, the associated
/// token account of `owner` for `mint`, and returns its first place.
pub fn find_ata(keys: &Vec<Identity>, owner: &Identity, mint: &Identity) -> (r: Result<
    usize,
    OrderBookError,
>)
    ensures
        r == Err::<usize, OrderBookError>(OrderBookError::AtaNotFound) <==> !lists(
            keys@,
            ata_of(owner@, mint@),
        ),
        r is Ok <==> lists(keys@, ata_of(owner@, mint@)),
        r matches Ok(i) ==> i < keys@.len() && keys@[i as int]@ == ata_of(owner@, mint@)
            && forall|j: int| 0 <= j < i ==> (#[trigger] keys@[j])@ != ata_of(owner@, mint@),
{
    let expected = associated_token_address(owner, mint);
    match position_of(keys, &expected) {
        Some(i) => Ok(i),
        None => Err(OrderBookError::AtaNotFound),
    }
}

} // verus!
