//! Script instances: the ids they get, and which instance an entity's script runs in.

use vstd::prelude::*;

verus! {

/// Hands out script instance ids, each once, in increasing order. Id 0 belongs to
/// the shared instance that every script can reach.
pub struct ScriptIds {
    next_id: u32,
}

impl ScriptIds {
    #[verifier::type_invariant]
    closed spec fn after_shared(self) -> bool {
        self.next_id >= 1
    }

    /// The id of the shared instance.
    pub const COLLECTIVIST_ID: u32 = 0;

    /// The id the next call of `gen_next_id` hands out.
    pub closed spec fn next(&self) -> u32 {
        self.next_id
    }

    /// The id the next call of `gen_next_id` hands out.
    pub fn peek_next(&self) -> (r: u32)
        ensures
            r == self.next(),
    {
        self.next_id
    }

    /// Hands out the next id.
    pub fn gen_next_id(&mut self) -> (id: u32)
        requires
            old(self).next() < u32::MAX,
        ensures
            id == old(self).next(),
            final(self).next() == id + 1,
            id != Self::COLLECTIVIST_ID,
    {
        proof {
            use_type_invariant(&*self);
        }
        self.next_id = self.next_id + 1;
        self.next_id - 1
    }
}

impl Default for ScriptIds {
    /// Ids start after the shared instance's.
    fn default() -> (s: ScriptIds)
        ensures
            s.next() == 1,
    {
        ScriptIds { next_id: 1 }
    }
}

/// How the entities that run a script share its scope.
#[derive(Clone, Copy, Debug, PartialEq, Eq, Structural)]
pub enum InstanceKind {
    /// Each entity gets its own instance. Scripts default to this.
    Unique,
    /// All entities running the script share one instance of it.
    Shared,
    /// The script runs in the one instance that all such scripts share.
    Collectivist,
}

impl Default for InstanceKind {
    fn default() -> (k: InstanceKind)
        ensures
            k == InstanceKind::Unique,
    {
        InstanceKind::Unique
    }
}

/// What giving an entity its instance of a script takes.
#[derive(Clone, Copy, Debug, PartialEq, Eq, Structural)]
pub enum InstanceAction {
    /// Load the script into a new instance under the offered id.
    LoadNew,
    /// Load the script into a new instance under the offered id, and record it
    /// as the script's shared instance.
    LoadShared,
    /// Use the script's shared instance, which exists already.
    ReuseShared,
    /// Run the script in the collectivist instance; `first` when nothing has run
    /// there yet, in which case the instance is set up first.
    JoinCollectivist { first: bool },
}

/// Which instance an entity's script runs in, and what that takes.
#[derive(Clone, Copy, Debug, PartialEq, Eq, Structural)]
pub struct InstancePlan {
    /// The instance id the entity refers to the script by.
    pub ref_id: u32,
    pub action: InstanceAction,
}

/// Plans the instance of a script of kind `kind` for an entity that was offered
/// the id `id`, given the script's shared instance if it has one and whether the
/// collectivist instance is still empty.
pub fn plan_instance(kind: InstanceKind, id: u32, shared: Option<u32>, collectivist_empty: bool) -> (p: InstancePlan)
    ensures
        p == match kind {
            InstanceKind::Unique => InstancePlan { ref_id: id, action: InstanceAction::LoadNew },
            InstanceKind::Shared => match shared {
                Some(existing) => InstancePlan { ref_id: existing, action: InstanceAction::ReuseShared },
                None => InstancePlan { ref_id: id, action: InstanceAction::LoadShared },
            },
            InstanceKind::Collectivist => InstancePlan {
                ref_id: ScriptIds::COLLECTIVIST_ID,
                action: InstanceAction::JoinCollectivist { first: collectivist_empty },
            },
        },
{
    match kind {
        InstanceKind::Unique => InstancePlan { ref_id: id, action: InstanceAction::LoadNew },
        InstanceKind::Shared => match shared {
            Some(existing) => InstancePlan { ref_id: existing, action: InstanceAction::ReuseShared },
            None => InstancePlan { ref_id: id, action: InstanceAction::LoadShared },
        },
        InstanceKind::Collectivist => InstancePlan {
            ref_id: ScriptIds::COLLECTIVIST_ID,
            action: InstanceAction::JoinCollectivist { first: collectivist_empty },
        },
    }
}

/// A hook call waiting in an entity's queue: the script instances it waits for
/// (none: it goes to the next frame), and the hook to call.
pub struct HookCall<H> {
    pub script_ids: Vec<u32>,
    pub hook: H,
}

impl<H> HookCall<H> {
    /// A call that runs on the next frame, waiting for no instance.
    pub fn next_frame(hook: H) -> (c: HookCall<H>)
        ensures
            c.script_ids@.len() == 0,
            c.hook == hook,
    {
        HookCall { script_ids: Vec::new(), hook }
    }
}

/// A call can run once every instance it waits for is the collectivist one or
/// has been created.
pub open spec fn call_ready(script_ids: Seq<u32>, loaded: Seq<u32>) -> bool {
    forall|i: int|
        0 <= i < script_ids.len() ==> #[trigger] script_ids[i] == ScriptIds::COLLECTIVIST_ID
            || loaded.contains(script_ids[i])
}

/// A call waiting for no instance is ready; a call waiting for one instance is
/// ready exactly when that is the collectivist instance or it has been created.
pub proof fn lemma_call_ready_base(id: u32, loaded: Seq<u32>)
    ensures
        call_ready(Seq::empty(), loaded),
        call_ready(seq![id], loaded) <==> (id == ScriptIds::COLLECTIVIST_ID || loaded.contains(id)),
{
    let one = seq![id];
    if call_ready(one, loaded) {
        assert(one[0] == id);
    }
}

/// A call waiting for the instances of two lists is ready exactly when it would be
/// ready waiting for each list alone: every instance waited for counts, wherever
/// it stands in the list.
pub proof fn lemma_call_ready_concat(first: Seq<u32>, second: Seq<u32>, loaded: Seq<u32>)
    ensures
        call_ready(first + second, loaded) <==> (call_ready(first, loaded) && call_ready(second, loaded)),
{
    let both = first + second;
    if call_ready(both, loaded) {
        assert forall|i: int| 0 <= i < first.len() implies #[trigger] first[i]
            == ScriptIds::COLLECTIVIST_ID || loaded.contains(first[i]) by {
            assert(both[i] == first[i]);
        }
        assert forall|i: int| 0 <= i < second.len() implies #[trigger] second[i]
            == ScriptIds::COLLECTIVIST_ID || loaded.contains(second[i]) by {
            assert(both[first.len() + i] == second[i]);
        }
    }
    if call_ready(first, loaded) && call_ready(second, loaded) {
        assert forall|i: int| 0 <= i < both.len() implies #[trigger] both[i]
            == ScriptIds::COLLECTIVIST_ID || loaded.contains(both[i]) by {
            if i < first.len() {
                assert(both[i] == first[i]);
            } else {
                assert(both[i] == second[i - first.len()]);
            }
        }
    }
}

/// A call that waits for an instance which is neither the collectivist one nor
/// created is not ready, wherever that instance stands in its list.
pub proof fn lemma_call_waits_for_missing(ids: Seq<u32>, loaded: Seq<u32>, i: int)
    requires
        0 <= i < ids.len(),
        ids[i] != ScriptIds::COLLECTIVIST_ID,
        !loaded.contains(ids[i]),
    ensures
        !call_ready(ids, loaded),
{
}

/// Whether a call waiting for `script_ids` can run, with the instances `loaded`
/// created.
pub fn is_call_ready(script_ids: &Vec<u32>, loaded: &Vec<u32>) -> (r: bool)
    ensures
        r == call_ready(script_ids@, loaded@),
{
    let mut i: usize = 0;
    while i < script_ids.len()
        invariant
            i <= script_ids@.len(),
            forall|j: int|
                0 <= j < i ==> #[trigger] script_ids@[j] == ScriptIds::COLLECTIVIST_ID
                    || loaded@.contains(script_ids@[j]),
        decreases script_ids@.len() - i,
    {
        let id = script_ids[i];
        if id != ScriptIds::COLLECTIVIST_ID {
            let mut found = false;
            let mut k: usize = 0;
            while k < loaded.len()
                invariant
                    k <= loaded@.len(),
                    found ==> loaded@.contains(id),
                    !found ==> forall|j: int| 0 <= j < k ==> loaded@[j] != id,
                decreases loaded@.len() - k,
            {
                if loaded[k] == id {
                    found = true;
                }
                k = k + 1;
            }
            if !found {
                assert(!loaded@.contains(id));
                return false;
            }
        }
        i = i + 1;
    }
    true
}

/// The calls of a queue that can run, in queue order.
pub open spec fn ready_calls<H>(queue: Seq<HookCall<H>>, loaded: Seq<u32>) -> Seq<HookCall<H>> {
    queue.filter(|c: HookCall<H>| call_ready(c.script_ids@, loaded))
}

/// The calls of a queue that keep waiting, in queue order.
pub open spec fn waiting_calls<H>(queue: Seq<HookCall<H>>, loaded: Seq<u32>) -> Seq<HookCall<H>> {
    queue.filter(|c: HookCall<H>| !call_ready(c.script_ids@, loaded))
}

/// Splits an entity's queue into the calls that run now and those that keep
/// waiting, each in queue order.
pub fn take_ready_calls<H>(queue: Vec<HookCall<H>>, loaded: &Vec<u32>) -> (r: (Vec<HookCall<H>>, Vec<HookCall<H>>))
    ensures
        r.0@ == ready_calls(queue@, loaded@),
        r.1@ == waiting_calls(queue@, loaded@),
{
    let ghost all = queue@;
    let mut rest = queue;
    let n = rest.len();
    let mut ready: Vec<HookCall<H>> = Vec::new();
    let mut waiting: Vec<HookCall<H>> = Vec::new();
    let mut i: usize = 0;
    proof {
        reveal(Seq::filter);
        assert(all.take(0).len() == 0);
    }
    assert(ready@ =~= ready_calls(all.take(0), loaded@));
    assert(waiting@ =~= waiting_calls(all.take(0), loaded@));
    while rest.len() > 0
        invariant
            all.len() == n,
            i + rest@.len() == all.len(),
            rest@ == all.subrange(i as int, all.len() as int),
            ready@ == ready_calls(all.take(i as int), loaded@),
            waiting@ == waiting_calls(all.take(i as int), loaded@),
        decreases rest@.len(),
    {
        let call = rest.remove(0);
        let ghost pre = all.take(i as int);
        let ghost post = all.take(i + 1);
        assert(post.drop_last() =~= pre);
        assert(post.last() == call);
        proof {
            reveal(Seq::filter);
        }
        let is_ready = is_call_ready(&call.script_ids, loaded);
        if is_ready {
            ready.push(call);
        } else {
            waiting.push(call);
        }
        assert(ready@ =~= ready_calls(post, loaded@));
        assert(waiting@ =~= waiting_calls(post, loaded@));
        i = i + 1;
        assert(rest@ =~= all.subrange(i as int, all.len() as int));
    }
    assert(all.take(i as int) =~= all);
    (ready, waiting)
}

/// Splitting a queue loses no call and duplicates none: the calls that run and
/// those that wait add up to the queue.
pub proof fn lemma_split_keeps_every_call<H>(queue: Seq<HookCall<H>>, loaded: Seq<u32>)
    ensures
        ready_calls(queue, loaded).len() + waiting_calls(queue, loaded).len() == queue.len(),
    decreases queue.len(),
{
    reveal(Seq::filter);
    if queue.len() > 0 {
        lemma_split_keeps_every_call(queue.drop_last(), loaded);
    }
}

/// The calls that run are exactly the ready calls of the queue, and the calls that
/// wait exactly the others.
pub proof fn lemma_split_by_readiness<H>(queue: Seq<HookCall<H>>, loaded: Seq<u32>)
    ensures
        forall|c: HookCall<H>| #[trigger] ready_calls(queue, loaded).contains(c) <==> (queue.contains(c)
            && call_ready(c.script_ids@, loaded)),
        forall|c: HookCall<H>| #[trigger] waiting_calls(queue, loaded).contains(c) <==> (queue.contains(c)
            && !call_ready(c.script_ids@, loaded)),
    decreases queue.len(),
{
    reveal(Seq::filter);
    if queue.len() > 0 {
        let init = queue.drop_last();
        lemma_split_by_readiness(init, loaded);
        let last = queue.last();
        assert(queue =~= init.push(last));
        assert forall|c: HookCall<H>| queue.contains(c) <==> (init.contains(c) || c == last) by {
            if queue.contains(c) {
                let j = choose|j: int| 0 <= j < queue.len() && queue[j] == c;
                if j < init.len() {
                    assert(init[j] == c);
                }
            }
            if init.contains(c) {
                let j = choose|j: int| 0 <= j < init.len() && init[j] == c;
                assert(queue[j] == c);
            }
            if c == last {
                assert(queue[queue.len() - 1] == c);
            }
        }
        let r0 = ready_calls(init, loaded);
        let w0 = waiting_calls(init, loaded);
        assert forall|c: HookCall<H>| r0.push(c).contains(c) by {
            assert(r0.push(c)[r0.len() as int] == c);
        }
        assert forall|c: HookCall<H>, x: HookCall<H>| #[trigger] r0.push(x).contains(c) <==> (r0.contains(c) || c == x) by {
            if r0.push(x).contains(c) {
                let j = choose|j: int| 0 <= j < r0.push(x).len() && r0.push(x)[j] == c;
                if j < r0.len() {
                    assert(r0[j] == c);
                }
            }
            if r0.contains(c) {
                let j = choose|j: int| 0 <= j < r0.len() && r0[j] == c;
                assert(r0.push(x)[j] == c);
            }
            if c == x {
                assert(r0.push(x)[r0.len() as int] == c);
            }
        }
        assert forall|c: HookCall<H>, x: HookCall<H>| #[trigger] w0.push(x).contains(c) <==> (w0.contains(c) || c == x) by {
            if w0.push(x).contains(c) {
                let j = choose|j: int| 0 <= j < w0.push(x).len() && w0.push(x)[j] == c;
                if j < w0.len() {
                    assert(w0[j] == c);
                }
            }
            if w0.contains(c) {
                let j = choose|j: int| 0 <= j < w0.len() && w0[j] == c;
                assert(w0.push(x)[j] == c);
            }
            if c == x {
                assert(w0.push(x)[w0.len() as int] == c);
            }
        }
    }
}

/// Whether a room is visible when it spawns: when it was revealed already or is
/// set to be revealed before anyone enters it.
pub open spec fn room_revealed(is_revealed: bool, reveal_before_entry: bool) -> bool {
    is_revealed || reveal_before_entry
}

/// The reveal hook call a spawning room queues for the scripts waiting on it:
/// one when the room is revealed, none otherwise.
pub fn room_reveal_call<H>(is_revealed: bool, reveal_before_entry: bool, waiting: Vec<u32>, hook: H) -> (r: Option<HookCall<H>>)
    ensures
        match r {
            Some(c) => room_revealed(is_revealed, reveal_before_entry) && c.script_ids == waiting && c.hook == hook,
            None => !room_revealed(is_revealed, reveal_before_entry),
        },
{
    if is_revealed || reveal_before_entry {
        Some(HookCall { script_ids: waiting, hook })
    } else {
        None
    }
}

} // verus!
