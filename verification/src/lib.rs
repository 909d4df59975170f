//! A content-addressed, copy-on-write file system with a public and a private tree.

use vstd::prelude::*;
use std::cell::RefCell;
use std::rc::Rc;

pub mod assoc;
pub mod cbor;
pub mod cid;
pub mod diff;
pub mod entries;
pub mod error;
pub mod hash;
pub mod ipld;
pub mod metadata;
pub mod order;
pub mod private;
pub mod public;
pub mod store;

verus! {

/// Number of bytes in a hash digest.
pub const HASH_BYTE_SIZE: usize = 32;

#[verifier::external_type_specification]
#[verifier::external_body]
#[verifier::reject_recursive_types(T)]
pub struct ExRefCell<T: ?Sized>(RefCell<T>);

/// A value that is shared and can be changed through every handle.
pub type Shared<T> = Rc<RefCell<T>>;

/// Calls `RefCell::new` of std, which makes a cell that holds the value.
#[verifier::external_body]
fn new_cell<T>(t: T) -> (r: RefCell<T>) {
    RefCell::new(t)
}

/// Calls `Rc::ptr_eq` of std, which tells whether two handles point to the
/// same allocation. Where they do, they hold the same value.
#[verifier::external_body]
pub(crate) fn same_handle<T>(a: &Rc<T>, b: &Rc<T>) -> (r: bool)
    ensures
        r ==> *a == *b,
{
    Rc::ptr_eq(a, b)
}

/// Puts a value behind a shared handle.
pub fn shared<T>(t: T) -> (r: Shared<T>) {
    Rc::new(new_cell(t))
}

} // verus!
