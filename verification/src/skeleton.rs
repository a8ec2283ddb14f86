//! Skeletons of animated actors: the entities spawned for each bone, and where
//! a sprite part attached to a bone is placed.

use vstd::prelude::*;
use crate::keyed::KeyedRows;

verus! {

/// Records that entity `id` was spawned for the bone `bone`, after the entities
/// already spawned for it.
pub fn record_bone_entity(entities: &mut KeyedRows<Vec<u64>>, bone: String, id: u64)
    ensures
        final(entities)@.dom() == old(entities)@.dom().insert(bone@),
        forall|b: Seq<char>| #[trigger] final(entities)@.dom().contains(b) && b != bone@ ==> final(entities)@[b] == old(entities)@[b],
        final(entities)@[bone@]@ == if old(entities)@.dom().contains(bone@) {
            old(entities)@[bone@]@.push(id)
        } else {
            seq![id]
        },
{
    let mut ids = match entities.remove(&bone) {
        Some(v) => v,
        None => Vec::new(),
    };
    ids.push(id);
    entities.insert(bone, ids);
}

/// The entity a sprite part attached to a bone is placed under: the first entity
/// spawned for the bone, or the actor's root entity when the bone has none.
pub fn bone_parent(bone_entities: Option<&Vec<u64>>, root: u64) -> (r: u64)
    ensures
        r == match bone_entities {
            Some(v) => if v@.len() > 0 {
                v@[0]
            } else {
                root
            },
            None => root,
        },
{
    match bone_entities {
        Some(v) => if v.len() > 0 {
            v[0]
        } else {
            root
        },
        None => root,
    }
}

} // verus!
