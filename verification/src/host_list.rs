//! The list type of the host, `soroban_sdk::Vec`, holding addresses as triples of plain values.
//!
//! Such a list is a handle: the items live in the host, and a list never changes once it is
//! made. Adding an item makes another list and points the handle at it. Each call uses up some
//! of the budget that the host gives to an invocation; the contracts below are about calls within
//! that budget.
use vstd::prelude::*;

verus! {

/// `soroban_sdk::Env`, the handle through which lists are made.
#[verifier::external_type_specification]
#[verifier::external_body]
pub struct ExHostEnv(soroban_sdk::Env);

/// `soroban_sdk::Vec`, the list type of the host.
#[verifier::external_type_specification]
#[verifier::external_body]
#[verifier::reject_recursive_types(T)]
pub struct ExHostVec<T>(soroban_sdk::Vec<T>);

/// The items of the list, in order.
pub uninterp spec fn listed(list: soroban_sdk::Vec<(bool, u128, u128)>) -> Seq<
    (bool, u128, u128),
>;

/// Whether each item that the host keeps for the list is a triple of the type that the list
/// claims. The host does not check this when a handle is made from a raw host value.
pub uninterp spec fn readable(list: soroban_sdk::Vec<(bool, u128, u128)>) -> bool;

/// `soroban_sdk::Vec::new`: makes an empty list.
#[verifier::external_body]
pub(crate) fn list_new(host: &soroban_sdk::Env) -> (r: soroban_sdk::Vec<(bool, u128, u128)>)
    ensures
        listed(r) == Seq::<(bool, u128, u128)>::empty(),
        readable(r),
{
    soroban_sdk::Vec::new(host)
}

/// `soroban_sdk::Vec::clone`: a second handle on the same items.
#[verifier::external_body]
pub(crate) fn list_clone(list: &soroban_sdk::Vec<(bool, u128, u128)>) -> (r: soroban_sdk::Vec<
    (bool, u128, u128),
>)
    ensures
        listed(r) == listed(*list),
        readable(r) == readable(*list),
{
    list.clone()
}

/// `soroban_sdk::Vec::len`: the number of items.
#[verifier::external_body]
pub(crate) fn list_len(list: &soroban_sdk::Vec<(bool, u128, u128)>) -> (r: u32)
    ensures
        r == listed(*list).len(),
{
    list.len()
}

/// `soroban_sdk::Vec::contains`: whether an item of the list equals the given one.
#[verifier::external_body]
pub(crate) fn list_contains(
    list: &soroban_sdk::Vec<(bool, u128, u128)>,
    item: (bool, u128, u128),
) -> (r: bool)
    requires
        readable(*list),
    ensures
        r == listed(*list).contains(item),
{
    list.contains(item)
}

/// `soroban_sdk::Vec::push_back`: the item comes after those that were there. The host keeps
/// at most `u32::MAX` items in one list.
#[verifier::external_body]
pub(crate) fn list_push_back(
    list: &mut soroban_sdk::Vec<(bool, u128, u128)>,
    item: (bool, u128, u128),
)
    requires
        listed(*old(list)).len() < u32::MAX,
    ensures
        listed(*final(list)) == listed(*old(list)).push(item),
        readable(*final(list)) == readable(*old(list)),
{
    list.push_back(item)
}

/// `soroban_sdk::Vec::iter`, run to its end: hands out every item, first to last. It panics on
/// an item of another type.
#[verifier::external_body]
pub(crate) fn list_items(list: &soroban_sdk::Vec<(bool, u128, u128)>) -> (r: Vec<
    (bool, u128, u128),
>)
    requires
        readable(*list),
    ensures
        r@ == listed(*list),
{
    list.iter().collect()
}

} // verus!
