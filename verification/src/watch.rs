use vstd::prelude::*;

verus! {

/// The kind of a file-system change notification, as the rebuild policy
/// reads it.
pub enum FileEventKind {
    Create,
    Modify,
    Remove,
    Other,
}

/// A creation, modification or deletion of a watched store file calls for a
/// rescan and rebuild; a deletion is not special — the rebuild simply omits
/// what is gone.
pub open spec fn triggers_rebuild(k: FileEventKind) -> bool {
    k is Create || k is Modify || k is Remove
}

/// Decide whether one notification triggers a rebuild, exactly as
/// `triggers_rebuild` says.
pub fn should_trigger_rebuild(k: &FileEventKind) -> (r: bool)
    ensures
        r == triggers_rebuild(*k),
{
    match k {
        FileEventKind::Create => true,
        FileEventKind::Modify => true,
        FileEventKind::Remove => true,
        FileEventKind::Other => false,
    }
}

} // verus!
