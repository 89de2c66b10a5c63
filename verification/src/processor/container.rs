//! Containers: the scopes that entries are written in.

use vstd::prelude::*;

verus! {

/// A scope in which entries are written, and the scope that holds it. A root
/// names a parent that need not be stored itself.
#[derive(Debug)]
pub struct Container {
    pub container_id: String,
    pub container_parent_id: String,
}

/// A container's two ids as text.
pub struct ContainerView {
    pub container_id: Seq<char>,
    pub container_parent_id: Seq<char>,
}

impl View for Container {
    type V = ContainerView;

    open spec fn view(&self) -> ContainerView {
        ContainerView {
            container_id: self.container_id@,
            container_parent_id: self.container_parent_id@,
        }
    }
}

impl Clone for Container {
    fn clone(&self) -> (copy: Self)
        ensures
            copy@ == self@,
    {
        Container {
            container_id: self.container_id.clone(),
            container_parent_id: self.container_parent_id.clone(),
        }
    }
}

} // verus!
