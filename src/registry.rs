use vstd::prelude::*;

verus! {

/// A node of the fleet: where it is reached and how it is tagged.
#[derive(Clone, Debug)]
pub struct Node {
    pub system: String,
    pub hostname: String,
    pub ssh_user: String,
    pub tags: Vec<String>,
}

/// The node registry: named nodes. `resolve` asks that the names ascend
/// (`strings::keys_sorted`), which also makes them unique.
pub type NodeRegistry = Vec<(String, Node)>;

/// Whether `tag` is among `tags`.
pub fn has_tag(tags: &Vec<String>, tag: &String) -> (r: bool)
    ensures
        r == exists|i: int| 0 <= i < tags@.len() && tags@[i]@ == tag@,
{
    let mut i: usize = 0;
    while i < tags.len()
        invariant
            0 <= i <= tags@.len(),
            forall|k: int| 0 <= k < i ==> tags@[k]@ != tag@,
        decreases tags@.len() - i,
    {
        if tags[i] == *tag {
            return true;
        }
        i = i + 1;
    }
    false
}

} // verus!
