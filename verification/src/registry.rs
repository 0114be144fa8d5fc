//! The drivers of tree stores that a process knows, by name.

use crate::errors::TreeStoreError;
use vstd::prelude::*;

verus! {

/// A driver of a tree store. Its name tells it from every other driver.
pub struct TreeStoreDriver {
    pub name: String,
}

/// The registered drivers, in the order in which they were registered.
pub struct TreeStores {
    pub drivers: Vec<TreeStoreDriver>,
}

impl View for TreeStores {
    type V = Seq<Seq<char>>;

    /// The names of the registered drivers.
    open spec fn view(&self) -> Seq<Seq<char>> {
        Seq::new(self.drivers@.len(), |i: int| self.drivers@[i].name@)
    }
}

impl TreeStores {
    /// No name is registered twice.
    pub open spec fn wf(&self) -> bool {
        forall|i: int, j: int| 0 <= i < j < self@.len() ==> self@[i] != self@[j]
    }

    /// Makes a registry without drivers.
    pub fn new() -> (r: Self)
        ensures
            r.wf(),
            r@ == Seq::<Seq<char>>::empty(),
    {
        let r = TreeStores { drivers: Vec::new() };
        assert(r@ =~= Seq::<Seq<char>>::empty());
        r
    }

    /// Tells whether a driver is registered under `name`.
    pub fn is_registered(&self, name: &String) -> (r: bool)
        ensures
            r == self@.contains(name@),
    {
        let mut i: usize = 0;
        while i < self.drivers.len()
            invariant
                i <= self.drivers@.len(),
                forall|j: int| 0 <= j < i ==> self@[j] != name@,
            decreases self.drivers@.len() - i,
        {
            if self.drivers[i].name == *name {
                assert(self@[i as int] == name@);
                return true;
            }
            i = i + 1;
        }
        false
    }
}

/// Returns the registered drivers, in the order in which they were
/// registered.
pub fn registered_tree_stores(tree_stores: &TreeStores) -> (r: Vec<TreeStoreDriver>)
    ensures
        r@.len() == tree_stores@.len(),
        forall|i: int| 0 <= i < r@.len() ==> (#[trigger] r@[i]).name@ == tree_stores@[i],
{
    let mut drivers: Vec<TreeStoreDriver> = Vec::new();
    let mut i: usize = 0;
    while i < tree_stores.drivers.len()
        invariant
            i <= tree_stores.drivers@.len(),
            drivers@.len() == i,
            forall|j: int| 0 <= j < i ==> (#[trigger] drivers@[j]).name@ == tree_stores@[j],
        decreases tree_stores.drivers@.len() - i,
    {
        drivers.push(TreeStoreDriver { name: tree_stores.drivers[i].name.clone() });
        i = i + 1;
    }
    drivers
}

/// Registers a driver. Fails, and changes nothing, where a driver is
/// registered under the same name.
pub fn register_tree_store(tree_store_driver: TreeStoreDriver, tree_stores: &mut TreeStores) -> (r: Result<
    (),
    TreeStoreError,
>)
    requires
        old(tree_stores).wf(),
    ensures
        final(tree_stores).wf(),
        r is Err <==> old(tree_stores)@.contains(tree_store_driver.name@),
        match r {
            Ok(_) => final(tree_stores)@ == old(tree_stores)@.push(tree_store_driver.name@),
            Err(e) => e == TreeStoreError::TreeStoreAlreadyRegisteredError && *final(tree_stores) == *old(
                tree_stores,
            ),
        },
{
    if tree_stores.is_registered(&tree_store_driver.name) {
        return Err(TreeStoreError::TreeStoreAlreadyRegisteredError);
    }
    let ghost before = tree_stores@;
    let ghost name = tree_store_driver.name@;
    tree_stores.drivers.push(tree_store_driver);
    proof {
        assert(tree_stores@ =~= before.push(name));
        assert forall|i: int, j: int| 0 <= i < j < tree_stores@.len() implies tree_stores@[i] != tree_stores@[j] by {
            if j == before.len() {
                assert(before[i] == tree_stores@[i]);
                assert(before.contains(before[i]));
            } else {
                assert(before[i] != before[j]);
            }
        }
    }
    Ok(())
}

} // verus!
