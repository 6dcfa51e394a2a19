//! A list of strings shared between tasks.
use vstd::prelude::*;
use vstd::rwlock::RwLock;
use std::sync::Arc;

verus! {

/// Holds of every value the shared list may take.
pub open spec fn any_strings() -> spec_fn(Vec<String>) -> bool {
    |v: Vec<String>| true
}

/// A list of strings behind a readers-writer lock; clones share the list.
#[derive(Clone)]
pub struct SharedStrings {
    data: Arc<RwLock<Vec<String>, spec_fn(Vec<String>) -> bool>>,
}

impl SharedStrings {
    /// The lock admits any list.
    pub closed spec fn wf(&self) -> bool {
        self.data.pred() == any_strings()
    }

    /// An empty shared list.
    pub fn new() -> (r: Self)
        ensures
            r.wf(),
    {
        let lock = RwLock::new(Vec::new(), Ghost(any_strings()));
        SharedStrings { data: Arc::new(lock) }
    }

    /// Appends `value` under the write lock.
    pub fn push(&self, value: String)
        requires
            self.wf(),
    {
        let (mut vec, handle) = self.data.acquire_write();
        vec.push(value);
        handle.release_write(vec);
    }

    /// A copy of the list as it stands, taken under the read lock.
    pub fn get_all(&self) -> (r: Vec<String>) {
        let handle = self.data.acquire_read();
        let r = handle.borrow().clone();
        handle.release_read();
        r
    }
}

} // verus!
