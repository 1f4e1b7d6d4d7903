//! The engine capability that the server is written against.

use vstd::prelude::*;
use crate::error::Result;

verus! {

/// A key/value engine: `set`, `get` and `remove` on string keys.
///
/// A handle is cheap to clone and its clones share one store, so every
/// operation takes the handle by shared reference. Each implementation says,
/// through the three relations below, what each operation may return.
pub trait KvsEngine: Clone + Send + 'static {
    /// `r` is a result that `set` of `key` to `value` may give. An
    /// implementation that says nothing more allows every result.
    open spec fn set_result(&self, key: Seq<char>, value: Seq<char>, r: Result<()>) -> bool {
        true
    }

    /// `r` is a result that `get` of `key` may give.
    open spec fn get_result(&self, key: Seq<char>, r: Result<Option<String>>) -> bool {
        true
    }

    /// `r` is a result that `remove` of `key` may give.
    open spec fn remove_result(&self, key: Seq<char>, r: Result<()>) -> bool {
        true
    }

    /// Sets the value of a key.
    fn set(&self, key: String, value: String) -> (r: Result<()>)
        ensures
            self.set_result(key@, value@, r),
    ;

    /// The value of a key, or `None` where the engine does not hold it.
    fn get(&self, key: String) -> (r: Result<Option<String>>)
        ensures
            self.get_result(key@, r),
    ;

    /// Removes a key; a key that the engine does not hold is a `KeyNotFound` error.
    fn remove(&self, key: String) -> (r: Result<()>)
        ensures
            self.remove_result(key@, r),
    ;
}

} // verus!
