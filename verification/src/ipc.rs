use vstd::prelude::*;

verus! {

/// A message from the UI collaborator: run a search, open a result, or hide
/// the window.
pub enum IpcMessage {
    Search { query: String },
    Open { url: String },
    Hide,
}

} // verus!
