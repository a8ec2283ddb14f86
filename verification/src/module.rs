//! Game modules ("mods"), their dependencies, and the order in which they load.
//!
//! Modules load in waves: a module belongs to the wave after the last wave of the
//! modules it depends on, so that everything a module needs has loaded before it.
//! Within a wave, modules are ordered by priority, then by name.

use vstd::prelude::*;
use crate::text::{seq_lt, str_lt, lemma_seq_lt_transitive, lemma_seq_lt_first_char,
    lemma_seq_lt_total, lemma_seq_lt_asymmetric};
use crate::version::{Version, VersionDependency};
use crate::wave_map::{wave_entries, keys_distinct, key_position, lemma_key_position, new_wave_map,
    wave_map_push, wave_map_sort_keys, wave_map_into_entries};

verus! {

/// Why a set of modules cannot be put into a load order.
#[derive(Clone, Debug, PartialEq, Eq)]
pub enum ModError {
    CircularDependency { circular: String, parent: Option<String> },
    IncompatibleVersion {
        name: String,
        version: Version,
        allowed: VersionDependency,
        required_by: Option<String>,
    },
    MissingDependency { name: String, required_by: Option<String> },
}

/// A module to load, by name and root directory.
#[derive(Clone, Debug, PartialEq, Eq)]
pub struct LoadEntry {
    pub name: String,
    pub root: String,
}

/// What the load order needs to know of a module definition.
///
/// `priority` orders modules within a wave (lower loads first); the fractional
/// priorities of module files are mapped to these integers by their order.
#[derive(Clone, Debug, PartialEq, Eq)]
pub struct Module {
    pub version: Version,
    pub priority: i64,
    pub dependencies: Vec<(String, VersionDependency)>,
    pub startup_scripts: Vec<String>,
}

impl Default for Module {
    fn default() -> (m: Self)
        ensures
            m.version == Version(0, 1, 0),
            m.priority == 0,
            m.dependencies@.len() == 0,
            m.startup_scripts@.len() == 0,
    {
        Module {
            version: Version::default(),
            priority: 0,
            dependencies: Vec::new(),
            startup_scripts: Vec::new(),
        }
    }
}

impl Module {
    pub fn is_version_valid(&self, version: VersionDependency) -> (r: bool)
        ensures
            r == version.allows(self.version),
    {
        version.is_valid(self.version)
    }
}

// ---------------------------------------------------------------------------
// Specification of a set of modules, as a sequence of (name, module) entries.

/// The position of the module called `name`, or -1.
pub open spec fn find_name(ms: Seq<(String, Module)>, name: Seq<char>) -> int
    decreases ms.len(),
{
    if ms.len() == 0 {
        -1
    } else if ms.last().0@ == name {
        ms.len() - 1
    } else {
        find_name(ms.drop_last(), name)
    }
}

/// No two entries have the same name.
pub open spec fn names_distinct(ms: Seq<(String, Module)>) -> bool {
    forall|i: int, j: int| 0 <= i < j < ms.len() ==> ms[i].0@ != ms[j].0@
}

pub open spec fn dep_count(ms: Seq<(String, Module)>, m: int) -> int {
    ms[m].1.dependencies@.len() as int
}

/// The name of the `k`th dependency of module `m`.
pub open spec fn dep_name(ms: Seq<(String, Module)>, m: int, k: int) -> Seq<char> {
    ms[m].1.dependencies@[k].0@
}

/// The position of the `k`th dependency of module `m`, or -1 when it is missing.
pub open spec fn dep_target(ms: Seq<(String, Module)>, m: int, k: int) -> int {
    find_name(ms, dep_name(ms, m, k))
}

/// Every dependency of every module is among the modules.
pub open spec fn deps_present(ms: Seq<(String, Module)>) -> bool {
    forall|m: int, k: int|
        0 <= m < ms.len() && 0 <= k < dep_count(ms, m) ==> #[trigger] dep_target(ms, m, k) >= 0
}

/// `r` ranks the modules so that each depends only on lower-ranked ones.
pub open spec fn is_ranking(ms: Seq<(String, Module)>, r: Seq<int>) -> bool {
    &&& r.len() == ms.len()
    &&& forall|m: int, k: int|
        0 <= m < ms.len() && 0 <= k < dep_count(ms, m) && #[trigger] dep_target(ms, m, k) >= 0
            ==> r[dep_target(ms, m, k)] < r[m]
}

/// The dependencies among the modules have no cycle: the modules can be ranked.
pub open spec fn has_ranking(ms: Seq<(String, Module)>) -> bool {
    exists|r: Seq<int>| is_ranking(ms, r)
}

/// Every dependency's version constraint is met by the module it names.
pub open spec fn versions_ok(ms: Seq<(String, Module)>) -> bool {
    forall|m: int, k: int|
        0 <= m < ms.len() && 0 <= k < dep_count(ms, m) && #[trigger] dep_target(ms, m, k) >= 0
            ==> ms[m].1.dependencies@[k].1.allows(ms[dep_target(ms, m, k)].1.version)
}

pub open spec fn max_int(a: int, b: int) -> int {
    if a >= b {
        a
    } else {
        b
    }
}

/// The highest level among the first `k` dependencies of `m` (0 when none).
pub open spec fn deps_max(ms: Seq<(String, Module)>, lv: Seq<int>, m: int, k: int) -> int
    decreases k,
{
    if k <= 0 {
        0
    } else {
        max_int(deps_max(ms, lv, m, k - 1), lv[dep_target(ms, m, k - 1)])
    }
}

/// `lv` gives each module its wave: one more than the highest wave among its
/// dependencies, 1 for a module without any.
pub open spec fn is_level(ms: Seq<(String, Module)>, lv: Seq<int>) -> bool {
    &&& lv.len() == ms.len()
    &&& deps_present(ms)
    &&& forall|m: int| 0 <= m < ms.len() ==> #[trigger] lv[m] == deps_max(ms, lv, m, dep_count(ms, m)) + 1
}

/// The positions below `k` whose level is `key`, ascending.
pub open spec fn members(lv: Seq<int>, k: int, key: int) -> Seq<usize>
    decreases k,
{
    if k <= 0 {
        Seq::empty()
    } else if lv[k - 1] == key {
        members(lv, k - 1, key).push((k - 1) as usize)
    } else {
        members(lv, k - 1, key)
    }
}

/// Module `a` loads before module `b` within a wave: lower priority first, then by name.
pub open spec fn loads_before(ms: Seq<(String, Module)>, a: int, b: int) -> bool {
    ||| ms[a].1.priority < ms[b].1.priority
    ||| (ms[a].1.priority == ms[b].1.priority && seq_lt(ms[a].0@, ms[b].0@))
}

pub open spec fn wave_sorted(ms: Seq<(String, Module)>, w: Seq<usize>) -> bool {
    forall|i: int, j: int| 0 <= i < j < w.len() ==> loads_before(ms, w[i] as int, w[j] as int)
}

/// `waves` is the load order of `ms` for the levels `lv` and the wave numbers `keys`:
/// one wave per level that occurs, in ascending order of level, each holding exactly
/// the modules of that level, sorted by priority and name.
pub open spec fn is_load_order_for(
    ms: Seq<(String, Module)>,
    lv: Seq<int>,
    keys: Seq<int>,
    waves: Seq<Seq<usize>>,
) -> bool {
    &&& waves.len() == keys.len()
    &&& forall|i: int, j: int| 0 <= i < j < keys.len() ==> keys[i] < keys[j]
    &&& forall|m: int| 0 <= m < ms.len() ==> keys.contains(#[trigger] lv[m])
    &&& forall|j: int| 0 <= j < keys.len() ==> lv.contains(#[trigger] keys[j])
    &&& forall|j: int|
        0 <= j < waves.len() ==> (#[trigger] waves[j]).to_multiset() == members(
            lv,
            ms.len() as int,
            keys[j],
        ).to_multiset()
    &&& forall|j: int| 0 <= j < waves.len() ==> wave_sorted(ms, #[trigger] waves[j])
}

/// `waves` (module positions) is the load order of `ms`.
pub open spec fn is_load_order(ms: Seq<(String, Module)>, waves: Seq<Seq<usize>>) -> bool {
    exists|lv: Seq<int>, keys: Seq<int>| is_level(ms, lv) && is_load_order_for(ms, lv, keys, waves)
}

/// `named` spells out the waves `waves` by module name.
pub open spec fn waves_named(
    ms: Seq<(String, Module)>,
    waves: Seq<Seq<usize>>,
    named: Seq<Vec<String>>,
) -> bool {
    &&& named.len() == waves.len()
    &&& forall|j: int|
        0 <= j < waves.len() ==> (#[trigger] named[j])@.len() == waves[j].len() && forall|t: int|
            0 <= t < waves[j].len() ==> named[j]@[t]@ == ms[waves[j][t] as int].0@
}

/// Module `by` depends on a module called `name`, and no module has that name.
pub open spec fn missing_witness(ms: Seq<(String, Module)>, name: Seq<char>, by: Option<String>) -> bool {
    &&& by is Some
    &&& find_name(ms, name) < 0
    &&& exists|p: int, k: int|
        0 <= p < ms.len() && 0 <= k < dep_count(ms, p) && ms[p].0@ == by->0@ && #[trigger] dep_name(
            ms,
            p,
            k,
        ) == name
}

/// Module `by` depends on `name` under `allowed`, which `name`'s version does not meet.
pub open spec fn incompatible_witness(
    ms: Seq<(String, Module)>,
    name: Seq<char>,
    version: Version,
    allowed: VersionDependency,
    by: Option<String>,
) -> bool {
    &&& by is Some
    &&& find_name(ms, name) >= 0
    &&& ms[find_name(ms, name)].1.version == version
    &&& !allowed.allows(version)
    &&& exists|p: int, k: int|
        0 <= p < ms.len() && 0 <= k < dep_count(ms, p) && ms[p].0@ == by->0@ && #[trigger] dep_name(
            ms,
            p,
            k,
        ) == name && ms[p].1.dependencies@[k].1 == allowed
}

/// Following dependencies from the module at `from` leads to the module at `to`
/// (in no steps when they are the same module).
pub open spec fn reaches(ms: Seq<(String, Module)>, from: int, to: int) -> bool {
    exists|path: Seq<int>|
        #[trigger] is_chain(ms, path) && path.len() > 0 && path[0] == from && path.last() == to
}

/// Module `parent` depends on `circular`, and `circular` leads back to `parent`
/// through dependencies: that dependency closes a cycle.
pub open spec fn circular_witness(ms: Seq<(String, Module)>, circular: Seq<char>, parent: Option<String>) -> bool {
    &&& parent is Some
    &&& find_name(ms, circular) >= 0
    &&& !has_ranking(ms)
    &&& exists|p: int, k: int|
        0 <= p < ms.len() && 0 <= k < dep_count(ms, p) && ms[p].0@ == parent->0@ && #[trigger] dep_name(
            ms,
            p,
            k,
        ) == circular && reaches(ms, find_name(ms, circular), p)
}

/// `e` names a real defect of `ms`.
pub open spec fn error_witnessed(ms: Seq<(String, Module)>, e: ModError) -> bool {
    match e {
        ModError::MissingDependency { name, required_by } => missing_witness(ms, name@, required_by),
        ModError::IncompatibleVersion { name, version, allowed, required_by } => incompatible_witness(
            ms,
            name@,
            version,
            allowed,
            required_by,
        ),
        ModError::CircularDependency { circular, parent } => circular_witness(ms, circular@, parent),
    }
}

pub broadcast proof fn lemma_find_name_range(ms: Seq<(String, Module)>, name: Seq<char>)
    ensures
        -1 <= #[trigger] find_name(ms, name) < ms.len(),
    decreases ms.len(),
{
    if ms.len() > 0 {
        lemma_find_name_range(ms.drop_last(), name);
    }
}

pub proof fn lemma_find_name(ms: Seq<(String, Module)>, name: Seq<char>)
    ensures
        -1 <= find_name(ms, name) < ms.len(),
        find_name(ms, name) >= 0 ==> ms[find_name(ms, name)].0@ == name,
        find_name(ms, name) < 0 ==> forall|i: int| 0 <= i < ms.len() ==> ms[i].0@ != name,
    decreases ms.len(),
{
    if ms.len() > 0 {
        lemma_find_name(ms.drop_last(), name);
        assert forall|i: int| 0 <= i < ms.len() - 1 implies ms[i] == ms.drop_last()[i] by {}
    }
}

pub proof fn lemma_find_name_distinct(ms: Seq<(String, Module)>, i: int)
    requires
        names_distinct(ms),
        0 <= i < ms.len(),
    ensures
        find_name(ms, ms[i].0@) == i,
    decreases ms.len(),
{
    if i < ms.len() - 1 {
        assert(ms.drop_last()[i] == ms[i]);
        lemma_find_name_distinct(ms.drop_last(), i);
    }
}

/// Finds the position of the module called `name`.
fn find_index(ms: &Vec<(String, Module)>, name: &String) -> (r: Option<usize>)
    ensures
        match r {
            Some(i) => find_name(ms@, name@) == i,
            None => find_name(ms@, name@) < 0,
        },
{
    let mut i = ms.len();
    assert(ms@.subrange(0, i as int) =~= ms@);
    while i > 0
        invariant
            i <= ms@.len(),
            find_name(ms@, name@) == find_name(ms@.subrange(0, i as int), name@),
        decreases i,
    {
        let ghost sub = ms@.subrange(0, i as int);
        if ms[i - 1].0 == *name {
            return Some(i - 1);
        }
        assert(sub.drop_last() =~= ms@.subrange(0, i - 1));
        i = i - 1;
    }
    assert(ms@.subrange(0, 0).len() == 0);
    None
}


// ---------------------------------------------------------------------------
// Depth-first wave assignment.

/// How far the wave assignment has got with one module.
#[derive(Clone, Copy, Debug, PartialEq, Eq)]
enum Progress {
    Unvisited,
    Loading,
    Done(usize),
}

/// `x` is finished (`done`) or not yet visited (`!done`).
spec fn counted(x: Progress, done: bool) -> bool {
    if done {
        x is Done
    } else {
        x is Unvisited
    }
}

spec fn count_where(p: Seq<Progress>, done: bool) -> nat
    decreases p.len(),
{
    if p.len() == 0 {
        0
    } else {
        count_where(p.drop_last(), done) + if counted(p.last(), done) {
            1nat
        } else {
            0nat
        }
    }
}

spec fn count_done(p: Seq<Progress>) -> nat {
    count_where(p, true)
}

spec fn count_unvisited(p: Seq<Progress>) -> nat {
    count_where(p, false)
}

proof fn lemma_count_bound(p: Seq<Progress>, f: bool, i: int)
    ensures
        count_where(p, f) <= p.len(),
        0 <= i < p.len() && !counted(p[i], f) ==> count_where(p, f) < p.len(),
    decreases p.len(),
{
    if p.len() > 0 {
        if i == p.len() - 1 {
            lemma_count_bound(p.drop_last(), f, 0);
        } else {
            if 0 <= i < p.len() {
                assert(p.drop_last()[i] == p[i]);
            }
            lemma_count_bound(p.drop_last(), f, i);
        }
    }
}

proof fn lemma_count_mono(p1: Seq<Progress>, p2: Seq<Progress>, f: bool)
    requires
        p1.len() == p2.len(),
        forall|m: int| 0 <= m < p1.len() && counted(p1[m], f) ==> counted(p2[m], f),
    ensures
        count_where(p1, f) <= count_where(p2, f),
    decreases p1.len(),
{
    if p1.len() > 0 {
        assert forall|m: int| 0 <= m < p1.len() - 1 && counted(p1.drop_last()[m], f) implies counted(
            p2.drop_last()[m],
            f,
        ) by {
            assert(p1.drop_last()[m] == p1[m]);
            assert(p2.drop_last()[m] == p2[m]);
        }
        lemma_count_mono(p1.drop_last(), p2.drop_last(), f);
    }
}

proof fn lemma_count_update(p: Seq<Progress>, f: bool, i: int, v: Progress)
    requires
        0 <= i < p.len(),
        !counted(p[i], f),
        counted(v, f),
    ensures
        count_where(p.update(i, v), f) == count_where(p, f) + 1,
    decreases p.len(),
{
    let q = p.update(i, v);
    if i == p.len() - 1 {
        assert(q.drop_last() =~= p.drop_last());
    } else {
        assert(q.drop_last() =~= p.drop_last().update(i, v));
        lemma_count_update(p.drop_last(), f, i, v);
    }
}

/// The wave number of each finished module (0 for the others).
spec fn lvl(p: Seq<Progress>) -> Seq<int> {
    Seq::new(
        p.len(),
        |i: int|
            match p[i] {
                Progress::Done(k) => k as int,
                _ => 0,
            },
    )
}

/// A finished module has finished dependencies and the wave right after theirs.
spec fn done_node_ok(ms: Seq<(String, Module)>, p: Seq<Progress>, m: int) -> bool {
    &&& forall|k: int|
        0 <= k < dep_count(ms, m) ==> #[trigger] dep_target(ms, m, k) >= 0 && p[dep_target(
            ms,
            m,
            k,
        )] is Done
    &&& p[m]->Done_0 == deps_max(ms, lvl(p), m, dep_count(ms, m)) + 1
    &&& p[m]->Done_0 <= count_done(p)
}

spec fn done_ok(ms: Seq<(String, Module)>, p: Seq<Progress>) -> bool {
    &&& p.len() == ms.len()
    &&& forall|m: int| 0 <= m < p.len() && (#[trigger] p[m]) is Done ==> done_node_ok(ms, p, m)
}

/// Module `a` depends directly on module `b` (both by position).
pub open spec fn is_dep(ms: Seq<(String, Module)>, a: int, b: int) -> bool {
    exists|k: int| 0 <= k < dep_count(ms, a) && #[trigger] dep_target(ms, a, k) == b
}

/// The positions `st` form a chain of modules, each depending on the next.
pub open spec fn is_chain(ms: Seq<(String, Module)>, st: Seq<int>) -> bool {
    &&& forall|j: int| 0 <= j < st.len() ==> 0 <= #[trigger] st[j] < ms.len()
    &&& forall|j: int| 0 <= j < st.len() - 1 ==> is_dep(ms, #[trigger] st[j], st[j + 1])
}

spec fn loading_is(p: Seq<Progress>, st: Seq<int>) -> bool {
    forall|m: int| 0 <= m < p.len() ==> ((#[trigger] p[m]) is Loading <==> st.contains(m))
}

proof fn lemma_deps_max_frame(
    ms: Seq<(String, Module)>,
    lv1: Seq<int>,
    lv2: Seq<int>,
    m: int,
    k: int,
)
    requires
        forall|kk: int|
            0 <= kk < k ==> lv1[#[trigger] dep_target(ms, m, kk)] == lv2[dep_target(ms, m, kk)],
    ensures
        deps_max(ms, lv1, m, k) == deps_max(ms, lv2, m, k),
    decreases k,
{
    if k > 0 {
        lemma_deps_max_frame(ms, lv1, lv2, m, k - 1);
    }
}

proof fn lemma_deps_max_bound(ms: Seq<(String, Module)>, lv: Seq<int>, m: int, k: int, bound: int)
    requires
        bound >= 0,
        forall|kk: int| 0 <= kk < k ==> lv[#[trigger] dep_target(ms, m, kk)] <= bound,
    ensures
        deps_max(ms, lv, m, k) <= bound,
    decreases k,
{
    if k > 0 {
        lemma_deps_max_bound(ms, lv, m, k - 1, bound);
    }
}

/// Finished modules stay correct when other modules finish.
proof fn lemma_done_ok_grow(ms: Seq<(String, Module)>, p1: Seq<Progress>, p2: Seq<Progress>)
    requires
        done_ok(ms, p1),
        p2.len() == p1.len(),
        forall|m: int| 0 <= m < p1.len() && p1[m] is Done ==> p2[m] == p1[m],
        count_done(p2) >= count_done(p1),
    ensures
        forall|m: int| 0 <= m < p1.len() && p1[m] is Done ==> done_node_ok(ms, p2, m),
{
    broadcast use lemma_find_name_range;

    assert forall|m: int| 0 <= m < p1.len() && p1[m] is Done implies done_node_ok(ms, p2, m) by {
        assert(done_node_ok(ms, p1, m));
        assert forall|kk: int| 0 <= kk < dep_count(ms, m) implies lvl(p1)[#[trigger] dep_target(
            ms,
            m,
            kk,
        )] == lvl(p2)[dep_target(ms, m, kk)] by {
            let t = dep_target(ms, m, kk);
            lemma_find_name(ms, dep_name(ms, m, kk));
        }
        lemma_deps_max_frame(ms, lvl(p1), lvl(p2), m, dep_count(ms, m));
        assert forall|k: int| 0 <= k < dep_count(ms, m) implies #[trigger] dep_target(ms, m, k)
            >= 0 && p2[dep_target(ms, m, k)] is Done by {
            lemma_find_name(ms, dep_name(ms, m, k));
        }
    }
}

/// Along a chain of dependencies, every ranking strictly decreases.
proof fn lemma_chain_ranks(ms: Seq<(String, Module)>, st: Seq<int>, r: Seq<int>, a: int, b: int)
    requires
        is_ranking(ms, r),
        is_chain(ms, st),
        0 <= a < b < st.len(),
    ensures
        r[st[a]] > r[st[b]],
    decreases b - a,
{
    broadcast use lemma_find_name_range;

    let j = b - 1;
    assert(is_dep(ms, st[j], st[j + 1]));
    let k = choose|k: int|
        0 <= k < dep_count(ms, st[j]) && #[trigger] dep_target(ms, st[j], k) == st[j + 1];
    assert(r[st[j + 1]] < r[st[j]]);
    if a < j {
        lemma_chain_ranks(ms, st, r, a, j);
    }
}

/// A dependency of the last module in a chain that is itself in the chain closes a cycle.
proof fn lemma_cycle_no_ranking(ms: Seq<(String, Module)>, st: Seq<int>, i: int)
    requires
        is_chain(ms, st),
        st.len() > 0,
        is_dep(ms, st.last(), i),
        st.contains(i),
    ensures
        !has_ranking(ms),
{
    broadcast use lemma_find_name_range;

    if has_ranking(ms) {
        let r = choose|r: Seq<int>| is_ranking(ms, r);
        let a = choose|a: int| 0 <= a < st.len() && st[a] == i;
        let k = choose|k: int|
            0 <= k < dep_count(ms, st.last()) && #[trigger] dep_target(
                ms,
                st.last(),
                k,
            ) == i;
        assert(r[i as int] < r[st.last()]);
        if a < st.len() - 1 {
            lemma_chain_ranks(ms, st, r, a, st.len() - 1);
        }
    }
}

/// A defect that an error names rules out a load order.
proof fn lemma_error_blocks(ms: Seq<(String, Module)>, e: ModError)
    requires
        error_witnessed(ms, e),
    ensures
        !(deps_present(ms) && has_ranking(ms) && versions_ok(ms)),
{
    broadcast use lemma_find_name_range;

    match e {
        ModError::MissingDependency { name, required_by } => {
            let (p, k) = choose|p: int, k: int|
                0 <= p < ms.len() && 0 <= k < dep_count(ms, p) && ms[p].0@ == required_by->0@
                    && #[trigger] dep_name(ms, p, k) == name@;
            assert(dep_target(ms, p, k) < 0);
        },
        ModError::IncompatibleVersion { name, version, allowed, required_by } => {
            let (p, k) = choose|p: int, k: int|
                0 <= p < ms.len() && 0 <= k < dep_count(ms, p) && ms[p].0@ == required_by->0@
                    && #[trigger] dep_name(ms, p, k) == name@ && ms[p].1.dependencies@[k].1
                    == allowed;
            assert(dep_target(ms, p, k) >= 0);
        },
        ModError::CircularDependency { .. } => {},
    }
}

fn clone_opt(s: Option<&String>) -> (r: Option<String>)
    ensures
        r is Some <==> s is Some,
        r is Some ==> r->0@ == s->0@,
{
    match s {
        Some(x) => Some(x.clone()),
        None => None,
    }
}


proof fn lemma_push_contains(st: Seq<int>, i: int, x: int)
    ensures
        st.push(i).contains(x) <==> (st.contains(x) || x == i),
{
    let s2 = st.push(i);
    if st.contains(x) {
        let a = choose|a: int| 0 <= a < st.len() && st[a] == x;
        assert(s2[a] == x);
    }
    if x == i {
        assert(s2[st.len() as int] == i);
    }
    if s2.contains(x) {
        let a = choose|a: int| 0 <= a < s2.len() && s2[a] == x;
        if a < st.len() {
            assert(st[a] == x);
        }
    }
}

/// Marking an unvisited module as loading keeps the bookkeeping consistent.
proof fn lemma_set_loading(ms: Seq<(String, Module)>, p0: Seq<Progress>, st: Seq<int>, i: int)
    requires
        done_ok(ms, p0),
        loading_is(p0, st),
        0 <= i < p0.len(),
        p0[i] is Unvisited,
    ensures
        ({
            let pl = p0.update(i, Progress::Loading);
            &&& done_ok(ms, pl)
            &&& loading_is(pl, st.push(i))
            &&& count_done(pl) == count_done(p0)
            &&& count_unvisited(pl) < count_unvisited(p0)
            &&& lvl(pl) == lvl(p0)
        }),
        !st.contains(i),
{
    broadcast use lemma_find_name_range;

    let pl = p0.update(i, Progress::Loading);
    assert(lvl(pl) =~= lvl(p0));
    lemma_count_mono(p0, pl, true);
    lemma_count_mono(pl, p0, true);
    lemma_count_update(pl, false, i, Progress::Unvisited);
    assert(pl.update(i, Progress::Unvisited) =~= p0);
    assert forall|m: int| 0 <= m < pl.len() && (#[trigger] pl[m]) is Done implies done_node_ok(
        ms,
        pl,
        m,
    ) by {
        assert(p0[m] is Done);
        assert(done_node_ok(ms, p0, m));
        assert forall|k: int| 0 <= k < dep_count(ms, m) implies #[trigger] dep_target(ms, m, k) >= 0
            && pl[dep_target(ms, m, k)] is Done by {
            let t = dep_target(ms, m, k);
            assert(p0[t] is Done);
        }
    }
    assert(!(p0[i] is Loading));
    assert forall|m: int| 0 <= m < pl.len() implies ((#[trigger] pl[m]) is Loading
        <==> st.push(i).contains(m)) by {
        lemma_push_contains(st, i, m);
        if m != i {
            assert(pl[m] == p0[m]);
            assert(p0[m] is Loading <==> st.contains(m));
        }
    }
}

/// After a dependency has been assigned its wave, the running maximum covers it too.
proof fn lemma_dep_visited(
    ms: Seq<(String, Module)>,
    pb: Seq<Progress>,
    pa: Seq<Progress>,
    i: int,
    j: int,
    w: usize,
    wave: usize,
)
    requires
        0 <= i < ms.len(),
        0 <= j < dep_count(ms, i),
        pb.len() == ms.len(),
        pa.len() == ms.len(),
        done_ok(ms, pa),
        forall|m: int| 0 <= m < pb.len() && (#[trigger] pb[m]) is Done ==> pa[m] == pb[m],
        count_done(pa) >= count_done(pb),
        dep_target(ms, i, j) >= 0,
        pa[dep_target(ms, i, j)] == Progress::Done(w),
        forall|jj: int|
            0 <= jj < j ==> #[trigger] dep_target(ms, i, jj) >= 0 && pb[dep_target(ms, i, jj)] is Done,
        wave == deps_max(ms, lvl(pb), i, j),
        wave <= count_done(pb),
    ensures
        max_int(wave as int, w as int) == deps_max(ms, lvl(pa), i, j + 1),
        max_int(wave as int, w as int) <= count_done(pa),
        forall|jj: int|
            0 <= jj < j + 1 ==> #[trigger] dep_target(ms, i, jj) >= 0 && pa[dep_target(ms, i, jj)] is Done,
{
    broadcast use lemma_find_name_range;

    let t = dep_target(ms, i, j);
    lemma_find_name(ms, dep_name(ms, i, j));
    assert forall|kk: int| 0 <= kk < j implies lvl(pb)[#[trigger] dep_target(ms, i, kk)] == lvl(
        pa,
    )[dep_target(ms, i, kk)] by {
        lemma_find_name(ms, dep_name(ms, i, kk));
    }
    lemma_deps_max_frame(ms, lvl(pb), lvl(pa), i, j);
    assert(lvl(pa)[t] == w);
    assert(done_node_ok(ms, pa, t));
    assert forall|jj: int| 0 <= jj < j + 1 implies #[trigger] dep_target(ms, i, jj) >= 0 && pa[dep_target(
        ms,
        i,
        jj,
    )] is Done by {
        if jj < j {
            assert(pb[dep_target(ms, i, jj)] is Done);
        }
    }
}

/// Marking a loading module as finished, once all its dependencies are, keeps the
/// bookkeeping consistent.
proof fn lemma_finish(ms: Seq<(String, Module)>, pb: Seq<Progress>, st: Seq<int>, i: int, wave: int)
    requires
        done_ok(ms, pb),
        loading_is(pb, st.push(i)),
        !st.contains(i),
        0 <= i < pb.len(),
        pb[i] is Loading,
        forall|jj: int|
            0 <= jj < dep_count(ms, i) ==> #[trigger] dep_target(ms, i, jj) >= 0 && pb[dep_target(
                ms,
                i,
                jj,
            )] is Done,
        wave == deps_max(ms, lvl(pb), i, dep_count(ms, i)),
        0 <= wave <= count_done(pb),
        wave + 1 <= usize::MAX,
    ensures
        ({
            let pf = pb.update(i, Progress::Done((wave + 1) as usize));
            &&& done_ok(ms, pf)
            &&& loading_is(pf, st)
            &&& count_done(pf) == count_done(pb) + 1
            &&& count_unvisited(pf) <= count_unvisited(pb)
            &&& forall|m: int| 0 <= m < pb.len() && (#[trigger] pb[m]) is Done ==> pf[m] == pb[m]
        }),
{
    broadcast use lemma_find_name_range;

    let pf = pb.update(i, Progress::Done((wave + 1) as usize));
    lemma_count_update(pb, true, i, Progress::Done((wave + 1) as usize));
    lemma_done_ok_grow(ms, pb, pf);
    assert forall|kk: int| 0 <= kk < dep_count(ms, i) implies lvl(pb)[#[trigger] dep_target(
        ms,
        i,
        kk,
    )] == lvl(pf)[dep_target(ms, i, kk)] by {
        lemma_find_name(ms, dep_name(ms, i, kk));
    }
    lemma_deps_max_frame(ms, lvl(pb), lvl(pf), i, dep_count(ms, i));
    assert forall|k: int| 0 <= k < dep_count(ms, i) implies #[trigger] dep_target(ms, i, k) >= 0
        && pf[dep_target(ms, i, k)] is Done by {
        lemma_find_name(ms, dep_name(ms, i, k));
    }
    assert(done_node_ok(ms, pf, i));
    assert forall|m: int| 0 <= m < pf.len() && (#[trigger] pf[m]) is Done implies done_node_ok(
        ms,
        pf,
        m,
    ) by {
        if m != i {
            assert(pb[m] is Done);
        }
    }
    assert forall|m: int| 0 <= m < pf.len() implies ((#[trigger] pf[m]) is Loading
        <==> st.contains(m)) by {
        lemma_push_contains(st, i, m);
        if m != i {
            assert(pf[m] == pb[m]);
            assert(pb[m] is Loading <==> st.push(i).contains(m));
        }
    }
    lemma_count_mono(pf, pb, false);
}

/// Assigns the module called `name`, and everything it depends on, to waves.
#[verifier::rlimit(40)]
fn visit(
    ms: &Vec<(String, Module)>,
    prog: &mut Vec<Progress>,
    name: &String,
    parent: Option<&String>,
    version: Option<VersionDependency>,
    Ghost(st): Ghost<Seq<int>>,
) -> (r: Result<usize, ModError>)
    requires
        names_distinct(ms@),
        done_ok(ms@, old(prog)@),
        loading_is(old(prog)@, st),
        is_chain(ms@, st),
        parent is None ==> st.len() == 0 && version is None && find_name(ms@, name@) >= 0,
        parent is Some ==> st.len() > 0 && parent->0@ == ms@[st.last()].0@ && exists|k: int|
            0 <= k < dep_count(ms@, st.last()) && #[trigger] dep_name(
                ms@,
                st.last(),
                k,
            ) == name@ && version == Some(ms@[st.last()].1.dependencies@[k].1),
    ensures
        r is Ok ==> {
            &&& final(prog)@.len() == old(prog)@.len()
            &&& done_ok(ms@, final(prog)@)
            &&& loading_is(final(prog)@, st)
            &&& forall|m: int|
                0 <= m < old(prog)@.len() && (#[trigger] old(prog)@[m]) is Done ==> final(prog)@[m]
                    == old(prog)@[m]
            &&& forall|m: int|
                0 <= m < old(prog)@.len() && (#[trigger] final(prog)@[m]) is Unvisited ==> old(
                    prog,
                )@[m] is Unvisited
            &&& count_unvisited(final(prog)@) <= count_unvisited(old(prog)@)
            &&& count_done(final(prog)@) >= count_done(old(prog)@)
            &&& find_name(ms@, name@) >= 0
            &&& final(prog)@[find_name(ms@, name@)] == Progress::Done(r->Ok_0)
        },
        r matches Err(e) ==> error_witnessed(ms@, e),
    decreases count_unvisited(old(prog)@),
{
    broadcast use lemma_find_name_range;

    let ghost p0 = prog@;
    proof {
        lemma_find_name(ms@, name@);
    }
    let idx = find_index(ms, name);
    let i = match idx {
        None => {
            let required_by = clone_opt(parent);
            proof {
                if parent is Some {
                    let k = choose|k: int|
                        0 <= k < dep_count(ms@, st.last()) && #[trigger] dep_name(
                            ms@,
                            st.last(),
                            k,
                        ) == name@ && version == Some(ms@[st.last()].1.dependencies@[k].1);
                    assert(dep_name(ms@, st.last(), k) == name@);
                }
            }
            return Err(ModError::MissingDependency { name: name.clone(), required_by });
        },
        Some(i) => i,
    };
    match prog[i] {
        Progress::Done(k) => {
            proof {
                lemma_count_mono(p0, p0, true);
            }
            return Ok(k);
        },
        Progress::Loading => {
            let ghost pl = st.last();
            proof {
                assert(st.contains(i as int));
                let k = choose|k: int|
                    0 <= k < dep_count(ms@, pl) && #[trigger] dep_name(ms@, pl, k) == name@
                        && version == Some(ms@[pl].1.dependencies@[k].1);
                assert(dep_target(ms@, pl, k) == i);
                lemma_cycle_no_ranking(ms@, st, i as int);
                assert(dep_name(ms@, pl, k) == name@);
                let a = choose|a: int| 0 <= a < st.len() && st[a] == i as int;
                let path = st.subrange(a, st.len() as int);
                assert forall|j: int| 0 <= j < path.len() implies 0 <= #[trigger] path[j] < ms@.len() by {
                    assert(path[j] == st[a + j]);
                }
                assert forall|j: int| 0 <= j < path.len() - 1 implies is_dep(
                    ms@,
                    #[trigger] path[j],
                    path[j + 1],
                ) by {
                    assert(path[j] == st[a + j] && path[j + 1] == st[a + j + 1]);
                    assert(is_dep(ms@, st[a + j], st[a + j + 1]));
                }
                assert(is_chain(ms@, path));
                assert(path[0] == i as int && path.last() == pl);
                assert(reaches(ms@, find_name(ms@, name@), pl));
            }
            let parent_name = clone_opt(parent);
            return Err(ModError::CircularDependency { circular: name.clone(), parent: parent_name });
        },
        Progress::Unvisited => {},
    }
    let module = &ms[i].1;
    if let Some(v) = version {
        if !module.is_version_valid(v) {
            let ghost pl = st.last();
            proof {
                let k = choose|k: int|
                    0 <= k < dep_count(ms@, pl) && #[trigger] dep_name(ms@, pl, k) == name@
                        && version == Some(ms@[pl].1.dependencies@[k].1);
                assert(dep_name(ms@, pl, k) == name@);
            }
            let required_by = clone_opt(parent);
            return Err(
                ModError::IncompatibleVersion {
                    name: name.clone(),
                    version: module.version,
                    allowed: v,
                    required_by,
                },
            );
        }
    }
    let ghost st2 = st.push(i as int);
    proof {
        if st.len() > 0 {
            let pl = st.last();
            let k = choose|k: int|
                0 <= k < dep_count(ms@, pl) && #[trigger] dep_name(ms@, pl, k) == name@ && version
                    == Some(ms@[pl].1.dependencies@[k].1);
            assert(dep_target(ms@, pl, k) == i);
            assert(is_dep(ms@, pl, i as int));
        }
        assert forall|j: int| 0 <= j < st2.len() - 1 implies is_dep(
            ms@,
            #[trigger] st2[j] as int,
            st2[j + 1] as int,
        ) by {
            if j < st.len() - 1 {
                assert(st2[j] == st[j] && st2[j + 1] == st[j + 1]);
            }
        }
        assert forall|j: int| 0 <= j < st2.len() implies #[trigger] st2[j] < ms@.len() by {
            if j < st.len() {
                assert(st2[j] == st[j]);
            }
        }
        lemma_set_loading(ms@, p0, st, i as int);
    }
    prog.set(i, Progress::Loading);
    let deps = &module.dependencies;
    let mut wave: usize = 0;
    let mut j: usize = 0;
    while j < deps.len()
        invariant
            names_distinct(ms@),
            deps == &ms@[i as int].1.dependencies,
            i < ms@.len(),
            find_name(ms@, name@) == i,
            ms@[i as int].0@ == name@,
            !st.contains(i as int),
            st2 == st.push(i as int),
            p0 == old(prog)@,
            is_chain(ms@, st2),
            p0.len() == ms@.len(),
            p0[i as int] is Unvisited,
            prog@.len() == ms@.len(),
            done_ok(ms@, prog@),
            loading_is(prog@, st2),
            prog@[i as int] == Progress::Loading,
            forall|m: int| 0 <= m < p0.len() && (#[trigger] p0[m]) is Done ==> prog@[m] == p0[m],
            forall|m: int|
                0 <= m < p0.len() && (#[trigger] prog@[m]) is Unvisited ==> p0[m] is Unvisited,
            count_unvisited(prog@) < count_unvisited(p0),
            count_done(prog@) >= count_done(p0),
            j <= deps@.len(),
            forall|jj: int|
                0 <= jj < j ==> #[trigger] dep_target(ms@, i as int, jj) >= 0 && prog@[dep_target(
                    ms@,
                    i as int,
                    jj,
                )] is Done,
            wave == deps_max(ms@, lvl(prog@), i as int, j as int),
            wave <= count_done(prog@),
        decreases deps@.len() - j,
    {
        let ghost pb = prog@;
        proof {
            assert(st2.last() == i as int);
            assert(dep_name(ms@, i as int, j as int) == deps@[j as int].0@);
        }
        let res = visit(ms, prog, &deps[j].0, Some(name), Some(deps[j].1), Ghost(st2));
        let w = match res {
            Ok(w) => w,
            Err(e) => {
                return Err(e);
            },
        };
        proof {
            lemma_dep_visited(ms@, pb, prog@, i as int, j as int, w, wave);
        }
        wave = if w > wave {
            w
        } else {
            wave
        };
        j = j + 1;
    }
    let ghost pb = prog@;
    assert(pb.len() == prog.len());
    proof {
        lemma_count_bound(pb, true, i as int);
        lemma_finish(ms@, pb, st, i as int, wave as int);
    }
    prog.set(i, Progress::Done(wave + 1));
    proof {
        lemma_count_mono(p0, prog@, true);
    }
    Ok(wave + 1)
}

// ---------------------------------------------------------------------------
// Ordering within a wave.

proof fn lemma_loads_before_transitive(ms: Seq<(String, Module)>, a: int, b: int, c: int)
    requires
        loads_before(ms, a, b),
        loads_before(ms, b, c),
    ensures
        loads_before(ms, a, c),
{
    if ms[a].1.priority == ms[b].1.priority && ms[b].1.priority == ms[c].1.priority {
        lemma_seq_lt_transitive(ms[a].0@, ms[b].0@, ms[c].0@);
    }
}

proof fn lemma_loads_before_total(ms: Seq<(String, Module)>, a: int, b: int)
    requires
        ms[a].0@ != ms[b].0@,
    ensures
        loads_before(ms, a, b) || loads_before(ms, b, a),
{
    lemma_seq_lt_total(ms[a].0@, ms[b].0@);
}

/// Whether module `a` loads before module `b` within a wave.
fn loads_before_exec(ms: &Vec<(String, Module)>, a: usize, b: usize) -> (r: bool)
    requires
        a < ms@.len(),
        b < ms@.len(),
    ensures
        r == loads_before(ms@, a as int, b as int),
{
    let pa = ms[a].1.priority;
    let pb = ms[b].1.priority;
    if pa < pb {
        true
    } else if pa > pb {
        false
    } else {
        str_lt(&ms[a].0, &ms[b].0)
    }
}

/// Sorts the modules of one wave by priority, then name (insertion sort).
fn sort_wave(ms: &Vec<(String, Module)>, w: &Vec<usize>) -> (r: Vec<usize>)
    requires
        names_distinct(ms@),
        forall|i: int| 0 <= i < w@.len() ==> #[trigger] w@[i] < ms@.len(),
        w@.no_duplicates(),
    ensures
        r@.to_multiset() == w@.to_multiset(),
        wave_sorted(ms@, r@),
{
    broadcast use vstd::seq_lib::group_to_multiset_ensures;

    let mut r: Vec<usize> = Vec::new();
    let mut k: usize = 0;
    assert(w@.take(0) =~= Seq::<usize>::empty());
    while k < w.len()
        invariant
            names_distinct(ms@),
            forall|i: int| 0 <= i < w@.len() ==> #[trigger] w@[i] < ms@.len(),
            w@.no_duplicates(),
            k <= w@.len(),
            r@.to_multiset() == w@.take(k as int).to_multiset(),
            wave_sorted(ms@, r@),
        decreases w@.len() - k,
    {
        let x = w[k];
        proof {
            assert forall|t: int| 0 <= t < r@.len() implies r@[t] != x && r@[t] < ms@.len() by {
                assert(r@.contains(r@[t]));
                vstd::seq_lib::to_multiset_contains(r@, r@[t]);
                vstd::seq_lib::to_multiset_contains(w@.take(k as int), r@[t]);
                assert(w@.take(k as int).contains(r@[t]));
                let a = choose|a: int| 0 <= a < k && w@.take(k as int)[a] == r@[t];
                assert(w@[a] == r@[t]);
            }
        }
        let mut pos: usize = 0;
        while pos < r.len()
            invariant
                pos <= r@.len(),
                x < ms@.len(),
                forall|t: int| 0 <= t < r@.len() ==> #[trigger] r@[t] < ms@.len(),
                forall|t: int| 0 <= t < pos ==> !loads_before(ms@, x as int, #[trigger] r@[t] as int),
            ensures
                pos <= r@.len(),
                forall|t: int| 0 <= t < pos ==> !loads_before(ms@, x as int, #[trigger] r@[t] as int),
                pos < r@.len() ==> loads_before(ms@, x as int, r@[pos as int] as int),
            decreases r@.len() - pos,
        {
            if loads_before_exec(ms, x, r[pos]) {
                break;
            }
            pos = pos + 1;
        }
        let ghost r0 = r@;
        proof {
            assert forall|t: int| 0 <= t < pos implies loads_before(ms@, #[trigger] r0[t] as int, x as int) by {
                assert(r0[t] != x);
                assert(ms@[r0[t] as int].0@ != ms@[x as int].0@);
                lemma_loads_before_total(ms@, r0[t] as int, x as int);
            }
        }
        r.insert(pos, x);
        proof {
            let r1 = r@;
            assert(w@.take(k + 1) =~= w@.take(k as int).push(x));
            vstd::seq_lib::to_multiset_insert(r0, pos as int, x);
            vstd::seq_lib::to_multiset_build(w@.take(k as int), x);
            assert forall|i: int, j: int| 0 <= i < j < r1.len() implies loads_before(
                ms@,
                r1[i] as int,
                r1[j] as int,
            ) by {
                if j < pos {
                    assert(r1[i] == r0[i] && r1[j] == r0[j]);
                } else if j == pos {
                    assert(r1[i] == r0[i]);
                } else if i == pos {
                    assert(r1[j] == r0[j - 1]);
                    if j - 1 > pos {
                        assert(loads_before(ms@, r0[pos as int] as int, r0[j - 1] as int));
                        lemma_loads_before_transitive(
                            ms@,
                            x as int,
                            r0[pos as int] as int,
                            r0[j - 1] as int,
                        );
                    }
                } else if i < pos {
                    assert(r1[i] == r0[i] && r1[j] == r0[j - 1]);
                    assert(loads_before(ms@, r0[i] as int, x as int));
                    assert(loads_before(ms@, x as int, r0[pos as int] as int));
                    lemma_loads_before_transitive(ms@, r0[i] as int, x as int, r0[pos as int] as int);
                    if j - 1 > pos {
                        lemma_loads_before_transitive(
                            ms@,
                            r0[i] as int,
                            r0[pos as int] as int,
                            r0[j - 1] as int,
                        );
                    }
                } else {
                    assert(r1[i] == r0[i - 1] && r1[j] == r0[j - 1]);
                }
            }
        }
        k = k + 1;
    }
    assert(w@.take(w@.len() as int) =~= w@);
    r
}

// ---------------------------------------------------------------------------
// The set of loaded modules, by name.

/// The loaded modules, each under its own name (a map from name to module that
/// keeps the order of first insertion).
pub struct ModMap {
    entries: Vec<(String, Module)>,
}

impl ModMap {
    #[verifier::type_invariant]
    spec fn names_unique(self) -> bool {
        names_distinct(self.entries@)
    }

    /// The (name, module) entries.
    pub closed spec fn entries(self) -> Seq<(String, Module)> {
        self.entries@
    }

    pub fn new() -> (m: Self)
        ensures
            m.entries() == Seq::<(String, Module)>::empty(),
    {
        ModMap { entries: Vec::new() }
    }

    pub fn len(&self) -> (r: usize)
        ensures
            r == self.entries().len(),
    {
        self.entries.len()
    }

    pub fn is_empty(&self) -> (r: bool)
        ensures
            r == (self.entries().len() == 0),
    {
        self.entries.len() == 0
    }

    /// Puts `module` under `name`, replacing the module that had that name.
    pub fn insert(&mut self, name: String, module: Module)
        ensures
            ({
                let old_entries = old(self).entries();
                let p = find_name(old_entries, name@);
                &&& p >= 0 ==> final(self).entries() == old_entries.update(p, (name, module))
                &&& p < 0 ==> final(self).entries() == old_entries.push((name, module))
            }),
    {
        proof {
            use_type_invariant(&*self);
            lemma_find_name(self.entries@, name@);
        }
        let found = find_index(&self.entries, &name);
        let mut entries: Vec<(String, Module)> = Vec::new();
        std::mem::swap(&mut entries, &mut self.entries);
        match found {
            Some(i) => {
                let ghost e0 = entries@;
                proof {
                    let e1 = e0.update(i as int, (name, module));
                    assert forall|a: int, b: int| 0 <= a < b < e1.len() implies e1[a].0@ != e1[b].0@ by {
                        if a != i && b != i {
                            assert(e1[a] == e0[a] && e1[b] == e0[b]);
                        } else if a == i {
                            assert(e1[b] == e0[b]);
                        } else {
                            assert(e1[a] == e0[a]);
                        }
                    }
                }
                entries.set(i, (name, module));
            },
            None => {
                let ghost e0 = entries@;
                proof {
                    let e1 = e0.push((name, module));
                    assert forall|a: int, b: int| 0 <= a < b < e1.len() implies e1[a].0@ != e1[b].0@ by {
                        if b < e0.len() {
                            assert(e1[a] == e0[a] && e1[b] == e0[b]);
                        } else {
                            assert(e1[a] == e0[a]);
                        }
                    }
                }
                entries.push((name, module));
            },
        }
        self.entries = entries;
    }

    /// The module called `name`, if any.
    pub fn get(&self, name: &String) -> (r: Option<&Module>)
        ensures
            match r {
                Some(m) => find_name(self.entries(), name@) >= 0 && *m == self.entries()[find_name(
                    self.entries(),
                    name@,
                )].1,
                None => find_name(self.entries(), name@) < 0,
            },
    {
        proof {
            lemma_find_name(self.entries@, name@);
        }
        match find_index(&self.entries, name) {
            Some(i) => Some(&self.entries[i].1),
            None => None,
        }
    }
}

// ---------------------------------------------------------------------------
// Grouping finished modules by wave.

/// Every module below `k` has an entry for its wave in `s`.
spec fn covers(lv: Seq<int>, k: int, s: Seq<(usize, Seq<usize>)>) -> bool {
    forall|u: int| 0 <= u < k ==> key_list(s).contains(#[trigger] lv[u])
}

/// The keys of `s`, in order.
spec fn key_list(s: Seq<(usize, Seq<usize>)>) -> Seq<int> {
    Seq::new(s.len(), |e: int| s[e].0 as int)
}

/// Every entry of `s1` is an entry of `s0`.
spec fn drawn_from(s0: Seq<(usize, Seq<usize>)>, s1: Seq<(usize, Seq<usize>)>) -> bool {
    forall|e: int| 0 <= e < s1.len() ==> s0.contains(#[trigger] s1[e])
}

proof fn lemma_members(lv: Seq<int>, k: int, key: int)
    requires
        0 <= k <= lv.len(),
        lv.len() <= usize::MAX,
    ensures
        forall|i: int|
            0 <= i < members(lv, k, key).len() ==> (#[trigger] members(lv, k, key)[i]) < k
                && lv[members(lv, k, key)[i] as int] == key,
        forall|i: int, j: int|
            0 <= i < j < members(lv, k, key).len() ==> members(lv, k, key)[i] < members(
                lv,
                k,
                key,
            )[j],
        members(lv, k, key).no_duplicates(),
        (members(lv, k, key).len() == 0) <==> (forall|u: int| 0 <= u < k ==> lv[u] != key),
    decreases k,
{
    if k > 0 {
        lemma_members(lv, k - 1, key);
        let m0 = members(lv, k - 1, key);
        if lv[k - 1] == key {
            assert(members(lv, k, key) == m0.push((k - 1) as usize));
        }
        assert forall|u: int| 0 <= u < k - 1 && lv[u] == key implies m0.len() > 0 by {}
    }
}

/// All modules finished, each with its correct wave: the waves form a level assignment.
proof fn lemma_all_done_level(ms: Seq<(String, Module)>, p: Seq<Progress>)
    requires
        done_ok(ms, p),
        forall|m: int| 0 <= m < p.len() ==> (#[trigger] p[m]) is Done,
    ensures
        is_level(ms, lvl(p)),
{
    broadcast use lemma_find_name_range;

    assert forall|m: int, k: int|
        0 <= m < ms.len() && 0 <= k < dep_count(ms, m) implies #[trigger] dep_target(ms, m, k) >= 0 by {
        assert(p[m] is Done);
        assert(done_node_ok(ms, p, m));
    }
    assert forall|m: int| 0 <= m < ms.len() implies #[trigger] lvl(p)[m] == deps_max(
        ms,
        lvl(p),
        m,
        dep_count(ms, m),
    ) + 1 by {
        assert(p[m] is Done);
        assert(done_node_ok(ms, p, m));
    }
}

/// One more module placed into the wave map keeps it a faithful grouping.
proof fn lemma_push_step(lv: Seq<int>, v: int, s0: Seq<(usize, Seq<usize>)>, s1: Seq<(usize, Seq<usize>)>)
    requires
        0 <= v < lv.len(),
        lv.len() <= usize::MAX,
        lv[v] >= 0,
        lv[v] <= usize::MAX,
        keys_distinct(s0),
        forall|e: int| 0 <= e < s0.len() ==> (#[trigger] s0[e]).1 == members(lv, v, s0[e].0 as int),
        forall|e: int| 0 <= e < s0.len() ==> (#[trigger] s0[e]).1.len() > 0,
        covers(lv, v, s0),
        ({
            let p = key_position(s0, lv[v] as usize);
            &&& p >= 0 ==> s1 == s0.update(p, (lv[v] as usize, s0[p].1.push(v as usize)))
            &&& p < 0 ==> s1 == s0.push((lv[v] as usize, seq![v as usize]))
        }),
    ensures
        keys_distinct(s1),
        forall|e: int| 0 <= e < s1.len() ==> (#[trigger] s1[e]).1 == members(lv, v + 1, s1[e].0 as int),
        forall|e: int| 0 <= e < s1.len() ==> (#[trigger] s1[e]).1.len() > 0,
        covers(lv, v + 1, s1),
{
    let key = lv[v] as usize;
    let p = key_position(s0, key);
    lemma_key_position(s0, key);
    assert forall|e: int| 0 <= e < s1.len() implies (#[trigger] s1[e]).1 == members(lv, v + 1, s1[e].0 as int) by {
        if p >= 0 && e == p {
            assert(s1[e].0 == key);
        } else if p < 0 && e == s0.len() {
            lemma_members(lv, v, key as int);
            if members(lv, v, key as int).len() != 0 {
                let u = choose|u: int| 0 <= u < v && lv[u] == key as int;
                assert(key_list(s0).contains(lv[u]));
                let e0 = choose|e0: int| 0 <= e0 < key_list(s0).len() && key_list(s0)[e0] == lv[u];
                assert(s0[e0].0 == key);
            }
            assert(members(lv, v, key as int) =~= Seq::<usize>::empty());
            assert(members(lv, v + 1, key as int) =~= seq![v as usize]);
        } else {
            assert(s1[e] == s0[e]);
            assert(s0[e].0 != key);
        }
    }
    assert forall|e: int| 0 <= e < s1.len() implies (#[trigger] s1[e]).1.len() > 0 by {
        if !(p >= 0 && e == p) && !(p < 0 && e == s0.len()) {
            assert(s1[e] == s0[e]);
        }
    }
    assert forall|a: int, b: int| 0 <= a < b < s1.len() implies s1[a].0 != s1[b].0 by {
        if p >= 0 {
            if a != p && b != p {
                assert(s1[a] == s0[a] && s1[b] == s0[b]);
            } else if a == p {
                assert(s1[b] == s0[b]);
            } else {
                assert(s1[a] == s0[a]);
            }
        } else {
            if b < s0.len() {
                assert(s1[a] == s0[a] && s1[b] == s0[b]);
            } else {
                assert(s1[a] == s0[a]);
            }
        }
    }
    assert forall|u: int| 0 <= u < v + 1 implies key_list(s1).contains(#[trigger] lv[u]) by {
        if u == v {
            if p >= 0 {
                assert(key_list(s1)[p] == lv[u]);
            } else {
                assert(key_list(s1)[s0.len() as int] == lv[u]);
            }
        } else {
            assert(key_list(s0).contains(lv[u]));
            let e0 = choose|e0: int| 0 <= e0 < key_list(s0).len() && key_list(s0)[e0] == lv[u];
            if p >= 0 && e0 == p {
                assert(key_list(s1)[e0] == lv[u]);
            } else {
                assert(s1[e0] == s0[e0]);
                assert(key_list(s1)[e0] == lv[u]);
            }
        }
    }
}

/// Sorting the wave map by key keeps it a faithful grouping, now in ascending order.
proof fn lemma_sorted_grouping(lv: Seq<int>, n: int, s0: Seq<(usize, Seq<usize>)>, s1: Seq<(usize, Seq<usize>)>)
    requires
        0 <= n == lv.len() <= usize::MAX,
        keys_distinct(s0),
        forall|e: int| 0 <= e < s0.len() ==> (#[trigger] s0[e]).1 == members(lv, n, s0[e].0 as int),
        forall|e: int| 0 <= e < s0.len() ==> (#[trigger] s0[e]).1.len() > 0,
        covers(lv, n, s0),
        s1.to_multiset() == s0.to_multiset(),
        forall|i: int, j: int| 0 <= i < j < s1.len() ==> s1[i].0 <= s1[j].0,
    ensures
        forall|i: int, j: int| 0 <= i < j < s1.len() ==> s1[i].0 < s1[j].0,
        forall|e: int| 0 <= e < s1.len() ==> (#[trigger] s1[e]).1 == members(lv, n, s1[e].0 as int),
        forall|e: int| 0 <= e < s1.len() ==> (#[trigger] s1[e]).1.len() > 0,
        drawn_from(s0, s1),
        covers(lv, n, s1),
{
    broadcast use vstd::seq_lib::group_to_multiset_ensures;

    assert forall|e: int| 0 <= e < s1.len() implies #[trigger] s0.contains(s1[e]) by {
        vstd::seq_lib::to_multiset_contains(s1, s1[e]);
        vstd::seq_lib::to_multiset_contains(s0, s1[e]);
        assert(s1.contains(s1[e]));
    }
    assert(drawn_from(s0, s1));
    assert(s0.no_duplicates()) by {
        assert forall|i: int, j: int| 0 <= i < s0.len() && 0 <= j < s0.len() && i != j implies s0[i] != s0[j] by {
            if i < j {
                assert(s0[i].0 != s0[j].0);
            } else {
                assert(s0[j].0 != s0[i].0);
            }
        }
    }
    s0.lemma_multiset_has_no_duplicates();
    s1.lemma_multiset_has_no_duplicates_conv();
    assert forall|e: int| 0 <= e < s1.len() implies (#[trigger] s1[e]).1 == members(lv, n, s1[e].0 as int)
        && s1[e].1.len() > 0 by {
        assert(s0.contains(s1[e]));
        let e0 = choose|e0: int| 0 <= e0 < s0.len() && s0[e0] === s1[e];
        assert(s0[e0].1 == members(lv, n, s0[e0].0 as int));
    }
    assert forall|i: int, j: int| 0 <= i < j < s1.len() implies s1[i].0 < s1[j].0 by {
        if s1[i].0 == s1[j].0 {
            assert(s1[i].1 == members(lv, n, s1[i].0 as int));
            assert(s1[j].1 == members(lv, n, s1[j].0 as int));
            assert(s1[i] =~~= s1[j]);
        }
    }
    assert forall|u: int| 0 <= u < n implies key_list(s1).contains(#[trigger] lv[u]) by {
        assert(key_list(s0).contains(lv[u]));
        let e0 = choose|e0: int| 0 <= e0 < key_list(s0).len() && key_list(s0)[e0] == lv[u];
        vstd::seq_lib::to_multiset_contains(s0, s0[e0]);
        vstd::seq_lib::to_multiset_contains(s1, s0[e0]);
        assert(s0.contains(s0[e0]));
        assert(s1.contains(s0[e0]));
        let e1 = choose|e1: int| 0 <= e1 < s1.len() && s1[e1] === s0[e0];
        assert(key_list(s1)[e1] == lv[u]);
    }
}

/// Groups the finished modules by wave, sorts each wave, and names its modules.
fn waves_of(ms: &Vec<(String, Module)>, prog: &Vec<Progress>) -> (res: Vec<Vec<String>>)
    requires
        names_distinct(ms@),
        done_ok(ms@, prog@),
        forall|m: int| 0 <= m < prog@.len() ==> (#[trigger] prog@[m]) is Done,
    ensures
        exists|w: Seq<Seq<usize>>| is_load_order(ms@, w) && waves_named(ms@, w, res@),
{
    let n = ms.len();
    let ghost lv = lvl(prog@);
    proof {
        lemma_all_done_level(ms@, prog@);
    }
    // Group module positions by wave.
    let mut map = new_wave_map();
    let mut v: usize = 0;
    while v < n
        invariant
            n == ms@.len(),
            v <= n,
            prog@.len() == n,
            lv == lvl(prog@),
            forall|m: int| 0 <= m < n ==> (#[trigger] prog@[m]) is Done,
            keys_distinct(wave_entries(map)),
            forall|e: int|
                0 <= e < wave_entries(map).len() ==> (#[trigger] wave_entries(map)[e]).1 == members(
                    lv,
                    v as int,
                    wave_entries(map)[e].0 as int,
                ),
            forall|e: int|
                0 <= e < wave_entries(map).len() ==> (#[trigger] wave_entries(map)[e]).1.len() > 0,
            covers(lv, v as int, wave_entries(map)),
        decreases n - v,
    {
        let k = match prog[v] {
            Progress::Done(k) => k,
            _ => {
                proof {
                    assert(prog@[v as int] is Done);
                }
                0
            },
        };
        let ghost s0 = wave_entries(map);
        wave_map_push(&mut map, k, v);
        proof {
            assert(lv[v as int] == k as int);
            lemma_push_step(lv, v as int, s0, wave_entries(map));
        }
        v = v + 1;
    }
    let ghost s0 = wave_entries(map);
    wave_map_sort_keys(&mut map);
    let ghost s1 = wave_entries(map);
    proof {
        lemma_sorted_grouping(lv, n as int, s0, s1);
    }
    let entries = wave_map_into_entries(map);
    // Sort each wave and name its modules.
    let mut res: Vec<Vec<String>> = Vec::new();
    let ghost mut w: Seq<Seq<usize>> = Seq::empty();
    let mut j: usize = 0;
    while j < entries.len()
        invariant
            n == ms@.len(),
            names_distinct(ms@),
            j <= entries@.len(),
            entries@.len() == s1.len(),
            forall|e: int|
                0 <= e < entries@.len() ==> (#[trigger] entries@[e]).0 == s1[e].0
                    && entries@[e].1@ == s1[e].1,
            forall|e: int| 0 <= e < s1.len() ==> (#[trigger] s1[e]).1 == members(lv, n as int, s1[e].0 as int),
            forall|e: int| 0 <= e < s1.len() ==> (#[trigger] s1[e]).1.len() > 0,
            lv.len() == n,
            w.len() == j,
            forall|e: int|
                0 <= e < j ==> (#[trigger] w[e]).to_multiset() == members(lv, n as int, s1[e].0 as int).to_multiset()
                    && wave_sorted(ms@, w[e]),
            waves_named(ms@, w, res@),
        decreases entries@.len() - j,
    {
        let members_j = &entries[j].1;
        proof {
            lemma_members(lv, n as int, s1[j as int].0 as int);
        }
        let sorted = sort_wave(ms, members_j);
        proof {
            broadcast use vstd::seq_lib::group_to_multiset_ensures;

            assert forall|t: int| 0 <= t < sorted@.len() implies #[trigger] sorted@[t] < n by {
                vstd::seq_lib::to_multiset_contains(sorted@, sorted@[t]);
                vstd::seq_lib::to_multiset_contains(members_j@, sorted@[t]);
                assert(sorted@.contains(sorted@[t]));
                let a = choose|a: int| 0 <= a < members_j@.len() && members_j@[a] == sorted@[t];
            }
        }
        let mut names: Vec<String> = Vec::new();
        let mut t: usize = 0;
        while t < sorted.len()
            invariant
                n == ms@.len(),
                t <= sorted@.len(),
                forall|a: int| 0 <= a < sorted@.len() ==> #[trigger] sorted@[a] < n,
                names@.len() == t,
                forall|a: int| 0 <= a < t ==> (#[trigger] names@[a])@ == ms@[sorted@[a] as int].0@,
            decreases sorted@.len() - t,
        {
            names.push(ms[sorted[t]].0.clone());
            t = t + 1;
        }
        let ghost w0 = w;
        let ghost res0 = res@;
        res.push(names);
        proof {
            w = w.push(sorted@);
            assert forall|e: int| 0 <= e < j + 1 implies (#[trigger] w[e]).to_multiset() == members(
                lv,
                n as int,
                s1[e].0 as int,
            ).to_multiset() && wave_sorted(ms@, w[e]) by {
                if e < j {
                    assert(w[e] == w0[e]);
                }
            }
            assert forall|e: int| 0 <= e < w.len() implies (#[trigger] res@[e])@.len() == w[e].len()
                && forall|a: int|
                0 <= a < w[e].len() ==> res@[e]@[a]@ == ms@[w[e][a] as int].0@ by {
                if e < j {
                    assert(w[e] == w0[e] && res@[e] == res0[e]);
                }
            }
        }
        j = j + 1;
    }
    proof {
        let keys = key_list(s1);
        assert forall|jj: int| 0 <= jj < keys.len() implies lv.contains(#[trigger] keys[jj]) by {
            lemma_members(lv, n as int, s1[jj].0 as int);
            assert(s1[jj].1.len() > 0);
            let m = choose|m: int| 0 <= m < n && lv[m] == s1[jj].0 as int;
            assert(lv[m] == keys[jj]);
        }
        assert(w.len() == keys.len());
        assert(forall|a: int, b: int| 0 <= a < b < keys.len() ==> keys[a] < keys[b]);
        assert(forall|jj: int|
            0 <= jj < w.len() ==> (#[trigger] w[jj]).to_multiset() == members(
                lv,
                ms@.len() as int,
                keys[jj],
            ).to_multiset());
        assert(forall|jj: int| 0 <= jj < w.len() ==> wave_sorted(ms@, #[trigger] w[jj]));
        assert(is_load_order_for(ms@, lv, keys, w));
        assert(is_load_order(ms@, w));
    }
    res
}

impl Module {
    /// Sorts the loaded modules into the order in which they load: a list of waves
    /// that can each load in parallel, every module in the wave after the last wave
    /// of its dependencies, and each wave sorted by priority, then by name.
    ///
    /// Fails on a dependency that is missing, whose version is not accepted, or that
    /// closes a cycle. Each dependency's version is checked when the search first
    /// reaches the module it names.
    pub fn sorted_load_order(mods: &ModMap) -> (r: Result<Vec<Vec<String>>, ModError>)
        ensures
            match r {
                Ok(waves) => exists|w: Seq<Seq<usize>>|
                    is_load_order(mods.entries(), w) && waves_named(mods.entries(), w, waves@),
                Err(e) => error_witnessed(mods.entries(), e),
            },
            deps_present(mods.entries()) && has_ranking(mods.entries()) && versions_ok(
                mods.entries(),
            ) ==> r is Ok,
            names_distinct(mods.entries()),
    {
        proof {
            use_type_invariant(mods);
        }
        let ms = &mods.entries;
        let n = ms.len();
        assert(mods.entries() == ms@);
        if n == 0 {
            let res: Vec<Vec<String>> = Vec::new();
            proof {
                let lv = Seq::<int>::empty();
                let keys = Seq::<int>::empty();
                let w = Seq::<Seq<usize>>::empty();
                assert(is_level(ms@, lv));
                assert(is_load_order_for(ms@, lv, keys, w));
                assert(is_load_order(ms@, w));
                assert(waves_named(ms@, w, res@));
            }
            return Ok(res);
        }
        let mut prog: Vec<Progress> = Vec::new();
        let mut i: usize = 0;
        while i < n
            invariant
                n == ms@.len(),
                i <= n,
                prog@.len() == i,
                forall|m: int| 0 <= m < i ==> (#[trigger] prog@[m]) == Progress::Unvisited,
            decreases n - i,
        {
            prog.push(Progress::Unvisited);
            i = i + 1;
        }
        let mut i: usize = 0;
        while i < n
            invariant
                n == ms@.len(),
                mods.entries() == ms@,
                names_distinct(ms@),
                i <= n,
                prog@.len() == n,
                done_ok(ms@, prog@),
                loading_is(prog@, Seq::<int>::empty()),
                forall|m: int| 0 <= m < i ==> (#[trigger] prog@[m]) is Done,
            decreases n - i,
        {
            proof {
                lemma_find_name_distinct(ms@, i as int);
            }
            let ghost pb = prog@;
            match visit(ms, &mut prog, &ms[i].0, None, None, Ghost(Seq::<int>::empty())) {
                Ok(_) => {},
                Err(e) => {
                    proof {
                        lemma_error_blocks(ms@, e);
                    }
                    return Err(e);
                },
            }
            proof {
                assert forall|m: int| 0 <= m < i + 1 implies (#[trigger] prog@[m]) is Done by {
                    if m < i {
                        assert(pb[m] is Done);
                    }
                }
            }
            i = i + 1;
        }
        let res = waves_of(ms, &prog);
        Ok(res)
    }
}

// ---------------------------------------------------------------------------
// Properties of load orders.

proof fn lemma_deps_max_ge(ms: Seq<(String, Module)>, lv: Seq<int>, m: int, k: int, kk: int)
    requires
        0 <= kk < k,
    ensures
        deps_max(ms, lv, m, k) >= lv[dep_target(ms, m, kk)],
        deps_max(ms, lv, m, k) >= 0,
    decreases k,
{
    if kk < k - 1 {
        lemma_deps_max_ge(ms, lv, m, k - 1, kk);
    } else if k - 1 > 0 {
        lemma_deps_max_ge(ms, lv, m, k - 1, 0);
    }
}

proof fn lemma_deps_max_nonneg(ms: Seq<(String, Module)>, lv: Seq<int>, m: int, k: int)
    ensures
        deps_max(ms, lv, m, k) >= 0,
    decreases k,
{
    if k > 0 {
        lemma_deps_max_nonneg(ms, lv, m, k - 1);
    }
}

/// A module's wave comes after the wave of each of its dependencies.
pub proof fn lemma_level_after_deps(ms: Seq<(String, Module)>, lv: Seq<int>, m: int, k: int)
    requires
        is_level(ms, lv),
        0 <= m < ms.len(),
        0 <= k < dep_count(ms, m),
    ensures
        0 <= dep_target(ms, m, k) < ms.len(),
        lv[dep_target(ms, m, k)] < lv[m],
        lv[m] >= 1,
{
    broadcast use lemma_find_name_range;

    assert(dep_target(ms, m, k) >= 0);
    lemma_deps_max_ge(ms, lv, m, dep_count(ms, m), k);
}

proof fn lemma_level_unique_up_to(ms: Seq<(String, Module)>, lv1: Seq<int>, lv2: Seq<int>, h: nat)
    requires
        is_level(ms, lv1),
        is_level(ms, lv2),
    ensures
        forall|m: int| 0 <= m < ms.len() && lv1[m] <= h ==> #[trigger] lv1[m] == lv2[m],
    decreases h,
{
    broadcast use lemma_find_name_range;

    if h > 0 {
        lemma_level_unique_up_to(ms, lv1, lv2, (h - 1) as nat);
    }
    assert forall|m: int| 0 <= m < ms.len() && lv1[m] <= h implies #[trigger] lv1[m] == lv2[m] by {
        lemma_deps_max_nonneg(ms, lv1, m, dep_count(ms, m));
        assert forall|kk: int| 0 <= kk < dep_count(ms, m) implies lv1[#[trigger] dep_target(
            ms,
            m,
            kk,
        )] == lv2[dep_target(ms, m, kk)] by {
            lemma_level_after_deps(ms, lv1, m, kk);
        }
        lemma_deps_max_frame(ms, lv1, lv2, m, dep_count(ms, m));
    }
}

/// The wave of each module is determined by the modules alone: any two assignments
/// of waves that put each module right after its dependencies agree.
pub proof fn lemma_level_unique(ms: Seq<(String, Module)>, lv1: Seq<int>, lv2: Seq<int>)
    requires
        is_level(ms, lv1),
        is_level(ms, lv2),
    ensures
        lv1 == lv2,
{
    assert forall|m: int| 0 <= m < ms.len() implies #[trigger] lv1[m] == lv2[m] by {
        lemma_deps_max_nonneg(ms, lv1, m, dep_count(ms, m));
        lemma_level_unique_up_to(ms, lv1, lv2, lv1[m] as nat);
    }
    assert(lv1 =~= lv2);
}

proof fn lemma_members_contains(lv: Seq<int>, k: int, key: int, u: int)
    requires
        0 <= u < k <= lv.len(),
        lv.len() <= usize::MAX,
        lv[u] == key,
    ensures
        members(lv, k, key).contains(u as usize),
    decreases k,
{
    if u < k - 1 {
        lemma_members_contains(lv, k - 1, key, u);
        let m0 = members(lv, k - 1, key);
        let a = choose|a: int| 0 <= a < m0.len() && m0[a] == u as usize;
        if lv[k - 1] == key {
            assert(members(lv, k, key)[a] == u as usize);
        } else {
            assert(members(lv, k, key)[a] == u as usize);
        }
    } else {
        let m = members(lv, k, key);
        assert(m[m.len() - 1] == u as usize);
    }
}

/// Where module `m` stands in a load order: the wave holding it.
proof fn lemma_wave_of(ms: Seq<(String, Module)>, lv: Seq<int>, keys: Seq<int>, w: Seq<Seq<usize>>, m: int) -> (j: int)
    requires
        is_level(ms, lv),
        is_load_order_for(ms, lv, keys, w),
        0 <= m < ms.len(),
        ms.len() <= usize::MAX,
    ensures
        0 <= j < w.len(),
        keys[j] == lv[m],
        w[j].contains(m as usize),
{
    broadcast use vstd::seq_lib::group_to_multiset_ensures;

    assert(keys.contains(lv[m]));
    let j = choose|j: int| 0 <= j < keys.len() && keys[j] == lv[m];
    lemma_members_contains(lv, ms.len() as int, lv[m], m);
    vstd::seq_lib::to_multiset_contains(members(lv, ms.len() as int, keys[j]), m as usize);
    vstd::seq_lib::to_multiset_contains(w[j], m as usize);
    j
}

/// Every module of the set appears in the load order, in one wave only.
pub proof fn lemma_load_order_covers(ms: Seq<(String, Module)>, w: Seq<Seq<usize>>, m: int)
    requires
        is_load_order(ms, w),
        0 <= m < ms.len(),
        ms.len() <= usize::MAX,
    ensures
        exists|j: int| 0 <= j < w.len() && w[j].contains(m as usize),
        forall|j1: int, j2: int|
            0 <= j1 < w.len() && 0 <= j2 < w.len() && w[j1].contains(m as usize) && w[j2].contains(
                m as usize,
            ) ==> j1 == j2,
{
    broadcast use vstd::seq_lib::group_to_multiset_ensures;

    let (lv, keys) = choose|lv: Seq<int>, keys: Seq<int>| is_level(ms, lv) && is_load_order_for(ms, lv, keys, w);
    let j = lemma_wave_of(ms, lv, keys, w, m);
    assert forall|j1: int, j2: int|
        0 <= j1 < w.len() && 0 <= j2 < w.len() && w[j1].contains(m as usize) && w[j2].contains(
            m as usize,
        ) implies j1 == j2 by {
        lemma_members(lv, ms.len() as int, keys[j1]);
        lemma_members(lv, ms.len() as int, keys[j2]);
        vstd::seq_lib::to_multiset_contains(w[j1], m as usize);
        vstd::seq_lib::to_multiset_contains(w[j2], m as usize);
        let mm1 = members(lv, ms.len() as int, keys[j1]);
        let mm2 = members(lv, ms.len() as int, keys[j2]);
        vstd::seq_lib::to_multiset_contains(mm1, m as usize);
        vstd::seq_lib::to_multiset_contains(mm2, m as usize);
        let a1 = choose|a: int| 0 <= a < mm1.len() && mm1[a] == m as usize;
        let a2 = choose|a: int| 0 <= a < mm2.len() && mm2[a] == m as usize;
        assert(lv[m] == keys[j1] && lv[m] == keys[j2]);
        if j1 < j2 {
            assert(keys[j1] < keys[j2]);
        } else if j2 < j1 {
            assert(keys[j2] < keys[j1]);
        }
    }
}

/// Every dependency of a module loads in an earlier wave than the module itself.
pub proof fn lemma_dependencies_load_first(
    ms: Seq<(String, Module)>,
    w: Seq<Seq<usize>>,
    j: int,
    t: int,
    k: int,
)
    requires
        is_load_order(ms, w),
        ms.len() <= usize::MAX,
        0 <= j < w.len(),
        0 <= t < w[j].len(),
        0 <= k < dep_count(ms, w[j][t] as int),
    ensures
        exists|j2: int|
            0 <= j2 < j && w[j2].contains(dep_target(ms, w[j][t] as int, k) as usize),
{
    broadcast use vstd::seq_lib::group_to_multiset_ensures;

    let (lv, keys) = choose|lv: Seq<int>, keys: Seq<int>| is_level(ms, lv) && is_load_order_for(ms, lv, keys, w);
    let m = w[j][t] as int;
    lemma_members(lv, ms.len() as int, keys[j]);
    vstd::seq_lib::to_multiset_contains(w[j], m as usize);
    let mm = members(lv, ms.len() as int, keys[j]);
    vstd::seq_lib::to_multiset_contains(mm, m as usize);
    assert(w[j].contains(m as usize));
    let a = choose|a: int| 0 <= a < mm.len() && mm[a] == m as usize;
    assert(0 <= m < ms.len() && lv[m] == keys[j]);
    lemma_level_after_deps(ms, lv, m, k);
    let d = dep_target(ms, m, k);
    let j2 = lemma_wave_of(ms, lv, keys, w, d);
    if j2 >= j {
        if j2 > j {
            assert(keys[j] < keys[j2]);
        }
    }
}

/// A load order exists only when every dependency is present and there is no cycle.
pub proof fn lemma_load_order_sound(ms: Seq<(String, Module)>, w: Seq<Seq<usize>>)
    requires
        is_load_order(ms, w),
    ensures
        deps_present(ms),
        has_ranking(ms),
{
    let (lv, keys) = choose|lv: Seq<int>, keys: Seq<int>| is_level(ms, lv) && is_load_order_for(ms, lv, keys, w);
    assert forall|m: int, k: int|
        0 <= m < ms.len() && 0 <= k < dep_count(ms, m) && #[trigger] dep_target(ms, m, k) >= 0
            implies lv[dep_target(ms, m, k)] < lv[m] by {
        lemma_level_after_deps(ms, lv, m, k);
    }
    assert(is_ranking(ms, lv));
}


/// Two sequences sorted strictly by the same asymmetric relation and holding the
/// same elements are the same sequence.
proof fn lemma_sorted_unique<T>(s1: Seq<T>, s2: Seq<T>, lt: spec_fn(T, T) -> bool)
    requires
        forall|x: T| s1.contains(x) <==> s2.contains(x),
        forall|i: int, j: int| 0 <= i < j < s1.len() ==> lt(s1[i], s1[j]),
        forall|i: int, j: int| 0 <= i < j < s2.len() ==> lt(s2[i], s2[j]),
        forall|a: T, b: T| #[trigger] lt(a, b) ==> !lt(b, a),
    ensures
        s1 == s2,
    decreases s1.len(),
{
    if s1.len() == 0 {
        if s2.len() > 0 {
            assert(s2.contains(s2[0]));
        }
        assert(s1 =~= s2);
    } else {
        assert(s1.contains(s1[0]));
        assert(s2.len() > 0);
        assert(s2.contains(s2[0]));
        let p = choose|p: int| 0 <= p < s2.len() && s2[p] == s1[0];
        let q = choose|q: int| 0 <= q < s1.len() && s1[q] == s2[0];
        if p > 0 {
            assert(lt(s2[0], s2[p]));
            if q > 0 {
                assert(lt(s1[0], s1[q]));
            } else {
                assert(lt(s1[0], s1[0]));
            }
        }
        assert(s1[0] == s2[0]);
        let t1 = s1.drop_first();
        let t2 = s2.drop_first();
        assert forall|x: T| t1.contains(x) <==> t2.contains(x) by {
            if t1.contains(x) {
                let i = choose|i: int| 0 <= i < t1.len() && t1[i] == x;
                assert(s1[i + 1] == x);
                assert(lt(s1[0], s1[i + 1]));
                assert(s2.contains(x));
                let k = choose|k: int| 0 <= k < s2.len() && s2[k] == x;
                if k == 0 {
                    assert(lt(x, x));
                }
                assert(t2[k - 1] == x);
            }
            if t2.contains(x) {
                let i = choose|i: int| 0 <= i < t2.len() && t2[i] == x;
                assert(s2[i + 1] == x);
                assert(lt(s2[0], s2[i + 1]));
                assert(s1.contains(x));
                let k = choose|k: int| 0 <= k < s1.len() && s1[k] == x;
                if k == 0 {
                    assert(lt(x, x));
                }
                assert(t1[k - 1] == x);
            }
        }
        assert forall|i: int, j: int| 0 <= i < j < t1.len() implies lt(t1[i], t1[j]) by {
            assert(lt(s1[i + 1], s1[j + 1]));
        }
        assert forall|i: int, j: int| 0 <= i < j < t2.len() implies lt(t2[i], t2[j]) by {
            assert(lt(s2[i + 1], s2[j + 1]));
        }
        lemma_sorted_unique(t1, t2, lt);
        assert(s1 =~= seq![s1[0]] + t1);
        assert(s2 =~= seq![s2[0]] + t2);
    }
}

/// The load order of a set of modules with distinct names is unique: any two load
/// orders of it are the same waves in the same order.
pub proof fn lemma_load_order_unique(ms: Seq<(String, Module)>, w1: Seq<Seq<usize>>, w2: Seq<Seq<usize>>)
    requires
        names_distinct(ms),
        is_load_order(ms, w1),
        is_load_order(ms, w2),
    ensures
        w1 == w2,
{
    broadcast use vstd::seq_lib::group_to_multiset_ensures;

    let (lv1, keys1) = choose|lv: Seq<int>, keys: Seq<int>| is_level(ms, lv) && is_load_order_for(ms, lv, keys, w1);
    let (lv2, keys2) = choose|lv: Seq<int>, keys: Seq<int>| is_level(ms, lv) && is_load_order_for(ms, lv, keys, w2);
    lemma_level_unique(ms, lv1, lv2);
    let int_lt = |a: int, b: int| a < b;
    assert forall|x: int| keys1.contains(x) <==> keys2.contains(x) by {
        if keys1.contains(x) {
            let j = choose|j: int| 0 <= j < keys1.len() && keys1[j] == x;
            assert(lv1.contains(keys1[j]));
            let m = choose|m: int| 0 <= m < lv1.len() && lv1[m] == x;
            assert(keys2.contains(lv2[m]));
        }
        if keys2.contains(x) {
            let j = choose|j: int| 0 <= j < keys2.len() && keys2[j] == x;
            assert(lv2.contains(keys2[j]));
            let m = choose|m: int| 0 <= m < lv2.len() && lv2[m] == x;
            assert(keys1.contains(lv1[m]));
        }
    }
    lemma_sorted_unique(keys1, keys2, int_lt);
    let before = |a: usize, b: usize| loads_before(ms, a as int, b as int);
    assert forall|a: usize, b: usize| #[trigger] before(a, b) implies !before(b, a) by {
        if ms[a as int].1.priority == ms[b as int].1.priority && seq_lt(ms[a as int].0@, ms[b as int].0@) {
            lemma_seq_lt_asymmetric(ms[a as int].0@, ms[b as int].0@);
        }
    }
    assert forall|j: int| 0 <= j < w1.len() implies #[trigger] w1[j] == w2[j] by {
        assert(w1[j].to_multiset() == w2[j].to_multiset());
        assert forall|x: usize| w1[j].contains(x) <==> w2[j].contains(x) by {
            vstd::seq_lib::to_multiset_contains(w1[j], x);
            vstd::seq_lib::to_multiset_contains(w2[j], x);
        }
        assert(wave_sorted(ms, w1[j]));
        assert(wave_sorted(ms, w2[j]));
        lemma_sorted_unique(w1[j], w2[j], before);
    }
    assert(w1 =~= w2);
}


/// The modules a circular-dependency error names lie on one cycle of
/// dependencies: from `circular` the dependencies lead to `parent`, and
/// `parent`'s dependency leads back to `circular`.
pub proof fn lemma_circular_names_a_cycle(ms: Seq<(String, Module)>, circular: Seq<char>, parent: Option<String>)
    requires
        circular_witness(ms, circular, parent),
    ensures
        exists|cycle: Seq<int>, j: int|
            #![trigger is_chain(ms, cycle), cycle[j]]
            is_chain(ms, cycle) && cycle.len() >= 2 && cycle[0] == find_name(ms, circular)
                && cycle.last() == find_name(ms, circular) && 0 <= j < cycle.len() && ms[cycle[j]].0@
                == parent->0@,
{
    broadcast use lemma_find_name_range;

    let (p, k) = choose|p: int, k: int|
        0 <= p < ms.len() && 0 <= k < dep_count(ms, p) && ms[p].0@ == parent->0@ && #[trigger] dep_name(
            ms,
            p,
            k,
        ) == circular && reaches(ms, find_name(ms, circular), p);
    let c = find_name(ms, circular);
    let path = choose|path: Seq<int>|
        #[trigger] is_chain(ms, path) && path.len() > 0 && path[0] == c && path.last() == p;
    let cycle = path.push(c);
    assert(dep_target(ms, p, k) == c);
    assert(is_dep(ms, p, c));
    assert forall|j: int| 0 <= j < cycle.len() implies 0 <= #[trigger] cycle[j] < ms.len() by {
        if j < path.len() {
            assert(cycle[j] == path[j]);
        }
    }
    assert forall|j: int| 0 <= j < cycle.len() - 1 implies is_dep(ms, #[trigger] cycle[j], cycle[j + 1]) by {
        if j < path.len() - 1 {
            assert(cycle[j] == path[j] && cycle[j + 1] == path[j + 1]);
        } else {
            assert(cycle[j] == p && cycle[j + 1] == c);
        }
    }
    assert(is_chain(ms, cycle));
    assert(cycle[path.len() - 1] == p);
}


/// Within a wave a lower priority loads first; at equal priority, of two names
/// whose first characters differ, the one with the smaller first character loads
/// first.
pub proof fn lemma_wave_order(ms: Seq<(String, Module)>, a: int, b: int)
    ensures
        ms[a].1.priority < ms[b].1.priority ==> loads_before(ms, a, b),
        ms[a].1.priority > ms[b].1.priority ==> !loads_before(ms, a, b),
        ms[a].1.priority == ms[b].1.priority && ms[a].0@.len() > 0 && ms[b].0@.len() > 0
            && ms[a].0@[0] != ms[b].0@[0] ==> (loads_before(ms, a, b) <==> ms[a].0@[0]
            < ms[b].0@[0]),
{
    let x = ms[a].0@;
    let y = ms[b].0@;
    if x.len() > 0 && y.len() > 0 && x[0] != y[0] {
        assert(x =~= seq![x[0]] + x.drop_first());
        assert(y =~= seq![y[0]] + y.drop_first());
        lemma_seq_lt_first_char(x[0], y[0], x.drop_first(), y.drop_first());
    }
}

} // verus!
