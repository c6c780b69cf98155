//! The workspaces that are open, each under a small number that the caller
//! holds in place of the workspace itself.

use crate::workspace::Workspace;
use slab::Slab;
use vstd::prelude::*;

verus! {

/// `slab::Slab`, of which nothing is seen here but what the functions below
/// state of it.
#[verifier::external_type_specification]
#[verifier::external_body]
#[verifier::reject_recursive_types(T)]
pub struct ExSlab<T>(Slab<T>);

/// The workspaces that a slab holds, each under its key.
pub uninterp spec fn slab_contents(slab: Slab<Workspace>) -> Map<usize, Workspace>;

/// No workspace under any key.
pub open spec fn none_open() -> Map<usize, Workspace> {
    Map::empty()
}

/// `Slab::new` makes a slab that holds nothing.
#[verifier::external_body]
fn slab_new() -> (made: Slab<Workspace>)
    ensures
        slab_contents(made) == none_open(),
{
    Slab::new()
}

/// `Slab::insert` stores the value in a vacant slot and returns the slot's
/// key; what the slab held stays under its keys.
#[verifier::external_body]
fn slab_insert(slab: &mut Slab<Workspace>, workspace: Workspace) -> (key: usize)
    ensures
        !slab_contents(*old(slab)).dom().contains(key),
        slab_contents(*final(slab)) == slab_contents(*old(slab)).insert(key, workspace),
{
    slab.insert(workspace)
}

/// `Slab::get` returns the value under the key, if the key's slot is occupied.
#[verifier::external_body]
fn slab_get(slab: &Slab<Workspace>, key: usize) -> (found: Option<&Workspace>)
    ensures
        found is Some <==> slab_contents(*slab).dom().contains(key),
        found is Some ==> *found->0 == slab_contents(*slab)[key],
{
    slab.get(key)
}

/// `Slab::get_mut` lends the value under the key, if the key's slot is
/// occupied; what the borrower leaves there is what the slab then holds
/// under the key, and nothing else changes.
#[verifier::external_body]
fn slab_get_mut(slab: &mut Slab<Workspace>, key: usize) -> (found: Option<&mut Workspace>)
    ensures
        found is Some <==> slab_contents(*old(slab)).dom().contains(key),
        found is Some ==> *found->0 == slab_contents(*old(slab))[key],
        found is Some ==> slab_contents(*final(slab)) == slab_contents(*old(slab)).insert(
            key,
            *final(found->0),
        ),
        found is None ==> slab_contents(*final(slab)) == slab_contents(*old(slab)),
{
    slab.get_mut(key)
}

/// `Slab::try_remove` takes the value under the key out, if the key's slot
/// is occupied, and leaves the rest as it was.
#[verifier::external_body]
fn slab_try_remove(slab: &mut Slab<Workspace>, key: usize) -> (taken: Option<Workspace>)
    ensures
        taken is Some <==> slab_contents(*old(slab)).dom().contains(key),
        taken is Some ==> taken->0 == slab_contents(*old(slab))[key],
        slab_contents(*final(slab)) == slab_contents(*old(slab)).remove(key),
{
    slab.try_remove(key)
}

/// `Slab::iter` walks the occupied slots from the lowest key to the
/// highest; of each the key is kept.
#[verifier::external_body]
fn slab_keys(slab: &Slab<Workspace>) -> (keys: Vec<usize>)
    ensures
        forall|i: int, j: int| 0 <= i < j < keys@.len() ==> keys@[i] < keys@[j],
        forall|k: usize| keys@.contains(k) <==> slab_contents(*slab).dom().contains(k),
{
    slab.iter().map(|entry| entry.0).collect()
}

/// Whether no workspace of `open` lives at `path`.
pub open spec fn none_at(open: Map<usize, Workspace>, path: Seq<char>) -> bool {
    forall|k: usize| open.dom().contains(k) ==> (#[trigger] open[k]).location@ != path
}

/// Whether no workspace of `open` with a number below `id` lives at `path`.
pub open spec fn none_below_at(open: Map<usize, Workspace>, id: usize, path: Seq<char>) -> bool {
    forall|k: usize| open.dom().contains(k) && k < id ==> (#[trigger] open[k]).location@ != path
}

/// Whether `after` is `before` with a new, empty workspace under `id`.
pub open spec fn opened(
    before: Map<usize, Workspace>,
    after: Map<usize, Workspace>,
    id: usize,
) -> bool {
    &&& !before.dom().contains(id)
    &&& after.dom() == before.dom().insert(id)
    &&& forall|k: usize| before.dom().contains(k) ==> #[trigger] after[k] == before[k]
    &&& after[id].wf()
    &&& after[id].vocabulary().len() == 0
    &&& after[id].index@.len() == 0
    &&& after[id].cached() is None
}

/// The number under which a workspace is open.
#[derive(Clone, Copy, Debug, PartialEq, Eq, Hash, Structural)]
pub struct WorkspaceId {
    pub id: usize,
}

/// The open workspaces.
pub struct WorkspaceRegistry {
    pub workspaces: Slab<Workspace>,
}

impl WorkspaceRegistry {
    /// The open workspaces, each under its number.
    pub open spec fn open(&self) -> Map<usize, Workspace> {
        slab_contents(self.workspaces)
    }

    /// A registry with no workspace open.
    pub fn new() -> (registry: WorkspaceRegistry)
        ensures
            registry.open() == none_open(),
    {
        WorkspaceRegistry { workspaces: slab_new() }
    }

    /// Opens a workspace at `path`, whether or not one is open there
    /// already, and returns its number.
    pub fn load_workspace(&mut self, path: String) -> (id: WorkspaceId)
        ensures
            opened(old(self).open(), final(self).open(), id.id),
            final(self).open()[id.id].location == path,
    {
        let workspace: Workspace = Workspace::new(path);
        let key: usize = slab_insert(&mut self.workspaces, workspace);
        WorkspaceId { id: key }
    }

    /// The workspace open under `id`, if there is one.
    pub fn get_workspace_ref(&self, id: WorkspaceId) -> (found: Option<&Workspace>)
        ensures
            found is Some <==> self.open().dom().contains(id.id),
            found is Some ==> *found->0 == self.open()[id.id],
    {
        slab_get(&self.workspaces, id.id)
    }

    /// The workspace open under `id`, if there is one, to work on.
    pub fn get_workspace_mut(&mut self, id: WorkspaceId) -> (found: Option<&mut Workspace>)
        ensures
            found is Some <==> old(self).open().dom().contains(id.id),
            found is Some ==> *found->0 == old(self).open()[id.id],
            found is Some ==> final(self).open() == old(self).open().insert(
                id.id,
                *final(found->0),
            ),
            found is None ==> final(self).open() == old(self).open(),
    {
        slab_get_mut(&mut self.workspaces, id.id)
    }

    /// The number of the workspace at `path`: that of the open workspace
    /// with the lowest number that lives there, or, if none does, that of a
    /// workspace opened there now.
    pub fn get_workspace_id(&mut self, path: String) -> (id: WorkspaceId)
        ensures
            final(self).open().dom().contains(id.id),
            final(self).open()[id.id].location@ == path@,
            old(self).open().dom().contains(id.id) ==> final(self).open() == old(self).open()
                && none_below_at(old(self).open(), id.id, path@),
            !old(self).open().dom().contains(id.id) ==> none_at(old(self).open(), path@)
                && opened(old(self).open(), final(self).open(), id.id),
    {
        let keys: Vec<usize> = slab_keys(&self.workspaces);
        let mut i: usize = 0;
        while i < keys.len()
            invariant
                *self == *old(self),
                0 <= i <= keys@.len(),
                forall|a: int, b: int| 0 <= a < b < keys@.len() ==> keys@[a] < keys@[b],
                forall|k: usize| keys@.contains(k) <==> self.open().dom().contains(k),
                forall|j: int| 0 <= j < i ==> self.open()[keys@[j]].location@ != path@,
            decreases keys@.len() - i,
        {
            let key: usize = keys[i];
            assert(keys@.contains(key));
            match slab_get(&self.workspaces, key) {
                Some(workspace) => {
                    if workspace.location.as_str().eq(path.as_str()) {
                        assert forall|k: usize|
                            self.open().dom().contains(k) && k < key implies (
                        #[trigger] self.open()[k]).location@ != path@ by {
                            assert(keys@.contains(k));
                            let j = choose|j: int| 0 <= j < keys@.len() && keys@[j] == k;
                            if j >= i {
                                assert(keys@[i as int] <= keys@[j]);
                            }
                        }
                        return WorkspaceId { id: key };
                    }
                },
                None => {},
            }
            i = i + 1;
        }
        proof {
            assert forall|k: usize| self.open().dom().contains(k) implies (
            #[trigger] self.open()[k]).location@ != path@ by {
                assert(keys@.contains(k));
                let j = choose|j: int| 0 <= j < keys@.len() && keys@[j] == k;
            }
        }
        self.load_workspace(path)
    }

    /// Closes the workspace open under `id` and hands it out; the number
    /// may be given to a workspace opened later.
    pub fn unload_workspace(&mut self, id: WorkspaceId) -> (closed: Option<Workspace>)
        ensures
            closed is Some <==> old(self).open().dom().contains(id.id),
            closed is Some ==> closed->0 == old(self).open()[id.id],
            final(self).open() == old(self).open().remove(id.id),
    {
        slab_try_remove(&mut self.workspaces, id.id)
    }
}

} // verus!
