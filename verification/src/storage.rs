//! The store behind the server: one tree of flags, and the answer to each
//! decoded request.

use crate::decipher::{Action, ActionResult, Operation};
use crate::model::{bare_root, deleted, inserted, value_at, Contents, Position};
use crate::path_tree::PathTree;
use std::sync::Arc;
use vstd::prelude::*;
use vstd::std_specs::hash::obeys_key_model;
use vstd::string::StringExecFns;

verus! {

/// The tree that the requests read and change. A position that was posted to
/// holds `true`.
pub struct Storage {
    storage: PathTree<String, bool>,
}

impl View for Storage {
    type V = Contents<String, bool>;

    /// What the tree of the store holds.
    closed spec fn view(&self) -> Self::V {
        self.storage@
    }
}

/// Whether the position holds a value, and the value is `true`.
pub open spec fn is_set(m: Contents<String, bool>, p: Position<String>) -> bool {
    match value_at(m, p) {
        Some(flag) => *flag,
        None => false,
    }
}

/// What the store holds after a request: a post stores `true` at the path, a
/// delete cuts the path off with all below it, and nothing else changes
/// anything.
pub open spec fn stored_after(m: Contents<String, bool>, op: ActionResult) -> Contents<
    String,
    bool,
> {
    match op {
        Ok(action) => match action.op {
            Operation::Post => inserted(m, action.path@, Arc::new(true)),
            Operation::Delete => deleted(m, action.path@),
            Operation::Get => m,
            Operation::Head => m,
        },
        Err(_) => m,
    }
}

/// The reply to a request. A get is answered with `1` where the path holds
/// `true`, and with `0` where it holds `false`, no value or no node.
pub open spec fn reply_to(m: Contents<String, bool>, op: ActionResult) -> Seq<char> {
    match op {
        Ok(action) => match action.op {
            Operation::Get => "HTTP/1.1 200 OK\n\n"@ + (if is_set(m, action.path@) {
                "1"@
            } else {
                "0"@
            }),
            Operation::Post => "HTTP/1.1 200 OK\n"@,
            Operation::Delete => "HTTP/1.1 200 OK\n"@,
            Operation::Head => "HTTP/1.1 400 Bad Request\n"@,
        },
        Err(_) => "HTTP/1.1 404 Not Found\n"@,
    }
}

/// Whether the answer to a request rests on the branches of the tree: it does
/// for a get, a post and a delete at a path that is not empty.
pub open spec fn walks_the_tree(op: ActionResult) -> bool {
    op matches Ok(action) && !(action.op is Head) && action.path@.len() > 0
}

impl Storage {
    /// A store that holds nothing yet.
    pub fn new() -> (store: Storage)
        ensures
            store@ == bare_root::<String, bool>(),
    {
        Storage { storage: PathTree::new() }
    }

    /// Carries out a decoded request and gives the reply to send back. A line
    /// that could not be decoded gets its own reply, and so does an operation
    /// that the store does not serve; neither changes the store.
    ///
    /// A request that walks the tree finds its way by the hashes of its
    /// fragments: for it the fragments have to obey the model of the map (see
    /// `path_tree`).
    pub fn act(&mut self, op: ActionResult) -> (reply: String)
        requires
            walks_the_tree(op) ==> obeys_key_model::<Arc<String>>(),
        ensures
            final(self)@ == stored_after(old(self)@, op),
            reply@ == reply_to(old(self)@, op),
    {
        match op {
            Ok(action) => match action.op {
                Operation::Get => {
                    let result = self.storage.get(action.path.as_slice());
                    let get_value = match result {
                        Some(val) => {
                            if *val {
                                "1"
                            } else {
                                "0"
                            }
                        },
                        None => "0",
                    };
                    "HTTP/1.1 200 OK\n\n".to_owned().concat(get_value)
                },
                Operation::Post => {
                    self.storage.insert(action.path.as_slice(), Arc::new(true));
                    "HTTP/1.1 200 OK\n".to_owned()
                },
                Operation::Delete => {
                    self.storage.delete(action.path.as_slice());
                    "HTTP/1.1 200 OK\n".to_owned()
                },
                _ => "HTTP/1.1 400 Bad Request\n".to_owned(),
            },
            Err(_) => "HTTP/1.1 404 Not Found\n".to_owned(),
        }
    }
}

/// A get that follows a post at the same path is answered with `1`.
pub proof fn lemma_posted_is_found(m: Contents<String, bool>, post: Action, get: Action)
    requires
        post.op is Post,
        get.op is Get,
        get.path@ == post.path@,
    ensures
        reply_to(stored_after(m, Ok(post)), Ok(get)) == "HTTP/1.1 200 OK\n\n"@ + "1"@,
{
}

/// A get that follows a delete at the same path is answered with `0`, and so
/// is a get below the path of the delete, the empty path aside: that one
/// stands for the root, which keeps what is below it.
pub proof fn lemma_deleted_is_not_found(m: Contents<String, bool>, delete: Action, get: Action)
    requires
        delete.op is Delete,
        get.op is Get,
        get.path@ == delete.path@ || (delete.path@.len() > 0 && delete.path@.is_prefix_of(
            get.path@,
        )),
    ensures
        reply_to(stored_after(m, Ok(delete)), Ok(get)) == "HTTP/1.1 200 OK\n\n"@ + "0"@,
{
}

/// A post or a delete leaves the answer to a get elsewhere as it was: at
/// another path for a post, at a path that is not below for a delete.
pub proof fn lemma_other_paths_keep_their_answer(
    m: Contents<String, bool>,
    change: Action,
    get: Action,
)
    requires
        get.op is Get,
        change.op is Post ==> change.path@ != get.path@,
        change.op is Delete ==> !change.path@.is_prefix_of(get.path@),
    ensures
        reply_to(stored_after(m, Ok(change)), Ok(get)) == reply_to(m, Ok(get)),
{
}

} // verus!
