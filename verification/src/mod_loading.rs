//! The steps of loading the modules of a mod list: naming the entries, planning
//! where scripts and file overrides come from, and the state machine that starts
//! each wave's scripts once the previous wave's have run.

use vstd::prelude::*;
use std::collections::VecDeque;
use crate::assets::{file_name, path_file_name};
use crate::text::{ends_with, drop_end, strip_suffix};

verus! {

/// The ending of the file that defines a module.
pub const MOD_FILE_SUFFIX: &'static str = ".mod.ron";

/// The directory of the game's own assets, whose scripts load from the base
/// path and whose files need no override.
pub const ASSETS_DIR: &'static str = "assets";

/// Why an entry of the mod list is refused.
#[derive(Clone, Copy, Debug, PartialEq, Eq, Structural)]
pub enum ModEntryError {
    /// The entry's `file` does not name a file.
    NotAFile,
}

/// An entry of the mod list: the module's definition file, the settings the
/// player chose for it, and the module's name, taken from the file's name.
pub struct ModEntry<S> {
    pub file: String,
    pub settings: S,
    pub name: String,
}

/// The name of a module from the name of its definition file: `None` when the
/// path has no file name. The file name must end in `.mod.ron`.
pub fn name_from_file_name(file_name: Option<&str>) -> (r: Result<String, ModEntryError>)
    requires
        file_name matches Some(n) ==> ends_with(n@, MOD_FILE_SUFFIX@),
    ensures
        match file_name {
            None => r == Err::<String, ModEntryError>(ModEntryError::NotAFile),
            Some(n) => r matches Ok(m) && m@ == drop_end(n@, MOD_FILE_SUFFIX@.len()),
        },
{
    match file_name {
        None => Err(ModEntryError::NotAFile),
        Some(n) => match strip_suffix(n, MOD_FILE_SUFFIX) {
            Some(m) => Ok(m),
            None => {
                assert(false);
                Err(ModEntryError::NotAFile)
            },
        },
    }
}

impl<S> ModEntry<S> {
    /// The entry for the module defined in `file`, named after the file. `None`
    /// when the file name does not end in `.mod.ron`: such a file cannot name a
    /// module.
    pub fn from_file(file: String, settings: S) -> (r: Option<Result<ModEntry<S>, ModEntryError>>)
        ensures
            match path_file_name(file@) {
                None => r matches Some(Err(e)) && e == ModEntryError::NotAFile,
                Some(n) => if ends_with(n, MOD_FILE_SUFFIX@) {
                    r matches Some(Ok(entry)) && entry.file == file && entry.settings == settings
                        && entry.name@ == drop_end(n, MOD_FILE_SUFFIX@.len())
                } else {
                    r is None
                },
            },
    {
        let fname = file_name(file.as_str());
        match fname {
            None => Some(Err(ModEntryError::NotAFile)),
            Some(n) => match strip_suffix(n.as_str(), MOD_FILE_SUFFIX) {
                None => None,
                Some(_) => match name_from_file_name(Some(n.as_str())) {
                    Ok(name) => Some(Ok(ModEntry { file, settings, name })),
                    Err(e) => Some(Err(e)),
                },
            },
        }
    }
}

/// The modules a game loads, as the player listed them.
pub struct ModList<S> {
    pub entries: Vec<ModEntry<S>>,
}

impl<S> Default for ModList<S> {
    fn default() -> (l: ModList<S>)
        ensures
            l.entries@.len() == 0,
    {
        ModList { entries: Vec::new() }
    }
}

impl<S> ModList<S> {
    /// The list a game starts with when the player has none: the game's own
    /// module alone.
    pub fn core_only(settings: S) -> (l: ModList<S>)
        ensures
            l.entries@.len() == 1,
            l.entries@[0].file@ == "assets/core.mod.ron"@,
            l.entries@[0].name@ == "core"@,
            l.entries@[0].settings == settings,
    {
        let entry = ModEntry { file: "assets/core.mod.ron".to_owned(), settings, name: "core".to_owned() };
        let mut entries = Vec::new();
        entries.push(entry);
        ModList { entries }
    }
}

/// The views of a sequence of strings.
pub open spec fn views(s: Seq<String>) -> Seq<Seq<char>> {
    s.map_values(|x: String| x@)
}

/// The root directories of a load order, wave after wave.
pub open spec fn order_dirs(order: Seq<Vec<String>>) -> Seq<Seq<char>>
    decreases order.len(),
{
    if order.len() == 0 {
        Seq::empty()
    } else {
        order_dirs(order.drop_last()) + views(order.last()@)
    }
}

/// The pattern under which the scripts of the module in `dir` are found.
pub open spec fn lua_pattern(base: Seq<char>, dir: Seq<char>) -> Seq<char> {
    base + seq!['/'] + dir + "/?.lua"@
}

/// The pieces joined with `sep` between them.
pub open spec fn join(pieces: Seq<Seq<char>>, sep: Seq<char>) -> Seq<char>
    decreases pieces.len(),
{
    if pieces.len() == 0 {
        Seq::empty()
    } else if pieces.len() == 1 {
        pieces[0]
    } else {
        join(pieces.drop_last(), sep) + sep + pieces.last()
    }
}

/// The script search path of a load order: the module directories' patterns,
/// last-loaded first, separated by `;`.
pub open spec fn lua_search_path(base: Seq<char>, dirs: Seq<Seq<char>>) -> Seq<char> {
    join(dirs.map_values(|d: Seq<char>| lua_pattern(base, d)).reverse(), seq![';'])
}

/// The directories whose files override the game's, in load order: every module
/// directory but the game's own assets, under the base path.
pub open spec fn override_dirs(base: Seq<char>, dirs: Seq<Seq<char>>) -> Seq<Seq<char>>
    decreases dirs.len(),
{
    if dirs.len() == 0 {
        Seq::empty()
    } else if dirs.last() == ASSETS_DIR@ {
        override_dirs(base, dirs.drop_last())
    } else {
        override_dirs(base, dirs.drop_last()).push(base + seq!['/'] + dirs.last())
    }
}

/// Where the files and scripts of a load order come from.
pub struct FilePlan {
    /// Directories to scan for overriding files, in load order.
    pub scan_dirs: Vec<String>,
    /// The script search path.
    pub lua_path: String,
}

/// The root directories of a load order, wave after wave.
pub fn flatten_dirs(order: &Vec<Vec<String>>) -> (r: Vec<String>)
    ensures
        views(r@) == order_dirs(order@),
{
    let mut out: Vec<String> = Vec::new();
    let mut i: usize = 0;
    while i < order.len()
        invariant
            i <= order@.len(),
            views(out@) == order_dirs(order@.take(i as int)),
        decreases order@.len() - i,
    {
        let wave = &order[i];
        let ghost start = out@;
        let mut j: usize = 0;
        while j < wave.len()
            invariant
                i < order@.len(),
                j <= wave@.len(),
                wave == order@[i as int],
                views(out@) == views(start) + views(wave@.take(j as int)),
            decreases wave@.len() - j,
        {
            let ghost prev = out@;
            out.push(wave[j].clone());
            assert(out@ =~= prev.push(wave@[j as int]));
            assert(views(out@) =~= views(prev).push(wave@[j as int]@));
            assert(views(wave@.take(j + 1)) =~= views(wave@.take(j as int)).push(wave@[j as int]@));
            assert(views(out@) =~= views(start) + views(wave@.take(j + 1)));
            j = j + 1;
        }
        assert(wave@.take(wave@.len() as int) =~= wave@);
        assert(order@.take(i + 1).drop_last() =~= order@.take(i as int));
        assert(views(out@) =~= order_dirs(order@.take(i + 1)));
        i = i + 1;
    }
    assert(order@.take(order@.len() as int) =~= order@);
    out
}

/// Joins the pieces last to first, with `;` between them.
fn join_reversed(pieces: &Vec<String>) -> (r: String)
    ensures
        r@ == join(views(pieces@).reverse(), seq![';']),
{
    let n = pieces.len();
    if n == 0 {
        assert(views(pieces@).reverse() =~= Seq::<Seq<char>>::empty());
        return String::new();
    }
    let mut acc = pieces[n - 1].clone();
    let mut i: usize = n - 1;
    assert(views(pieces@.subrange(i as int, n as int)).reverse() =~= seq![pieces@[i as int]@]);
    while i > 0
        invariant
            n == pieces@.len(),
            i < n,
            acc@ == join(views(pieces@.subrange(i as int, n as int)).reverse(), seq![';']),
        decreases i,
    {
        let ghost before = views(pieces@.subrange(i as int, n as int)).reverse();
        i = i - 1;
        acc.append(";");
        acc.append(pieces[i].as_str());
        proof {
            reveal_strlit(";");
            let after = views(pieces@.subrange(i as int, n as int)).reverse();
            assert(after =~= before.push(pieces@[i as int]@));
            assert(after.drop_last() =~= before);
        }
    }
    assert(pieces@.subrange(0, n as int) =~= pieces@);
    acc
}

/// Plans where the files and scripts of a load order of module directories come
/// from, under the base path `base`.
pub fn plan_mod_files(base: &str, order: &Vec<Vec<String>>) -> (r: FilePlan)
    ensures
        views(r.scan_dirs@) == override_dirs(base@, order_dirs(order@)),
        r.lua_path@ == lua_search_path(base@, order_dirs(order@)),
{
    let dirs = flatten_dirs(order);
    let ghost ds = views(dirs@);
    let assets = ASSETS_DIR.to_owned();
    let mut scan: Vec<String> = Vec::new();
    let mut patterns: Vec<String> = Vec::new();
    let mut i: usize = 0;
    while i < dirs.len()
        invariant
            i <= dirs@.len(),
            ds == views(dirs@),
            assets@ == ASSETS_DIR@,
            views(scan@) == override_dirs(base@, ds.take(i as int)),
            views(patterns@) == ds.take(i as int).map_values(|d: Seq<char>| lua_pattern(base@, d)),
        decreases dirs@.len() - i,
    {
        let mut root = base.to_owned();
        root.append("/");
        root.append(dirs[i].as_str());
        let mut pattern = root.clone();
        pattern.append("/?.lua");
        proof {
            reveal_strlit("/");
            assert("/"@ =~= seq!['/']);
        }
        assert(root@ =~= base@ + seq!['/'] + dirs@[i as int]@);
        assert(pattern@ == lua_pattern(base@, dirs@[i as int]@));
        assert(ds.take(i + 1).drop_last() =~= ds.take(i as int));
        assert(ds.take(i + 1).last() == dirs@[i as int]@);
        let ghost scan0 = scan@;
        let ghost patterns0 = patterns@;
        if dirs[i] != assets {
            scan.push(root);
            assert(views(scan@) =~= views(scan0).push(base@ + seq!['/'] + dirs@[i as int]@));
            assert(views(scan@) =~= override_dirs(base@, ds.take(i as int)).push(
                base@ + seq!['/'] + dirs@[i as int]@,
            ));
        }
        patterns.push(pattern);
        assert(views(patterns@) =~= views(patterns0).push(lua_pattern(base@, dirs@[i as int]@)));
        assert(views(patterns@) =~= ds.take(i + 1).map_values(
            |d: Seq<char>| lua_pattern(base@, d),
        ));
        i = i + 1;
    }
    assert(ds.take(dirs@.len() as int) =~= ds);
    let lua_path = join_reversed(&patterns);
    FilePlan { scan_dirs: scan, lua_path }
}

/// The pieces joined with a separator begin with the first piece.
proof fn lemma_join_starts_with_first(pieces: Seq<Seq<char>>, sep: Seq<char>)
    requires
        pieces.len() > 0,
    ensures
        join(pieces, sep).len() >= pieces[0].len(),
        join(pieces, sep).subrange(0, pieces[0].len() as int) == pieces[0],
    decreases pieces.len(),
{
    if pieces.len() > 1 {
        let rest = pieces.drop_last();
        lemma_join_starts_with_first(rest, sep);
        let j = join(rest, sep);
        assert(rest[0] == pieces[0]);
        assert((j + sep + pieces.last()).subrange(0, pieces[0].len() as int) =~= j.subrange(
            0,
            pieces[0].len() as int,
        ));
    } else {
        assert(join(pieces, sep).subrange(0, pieces[0].len() as int) =~= pieces[0]);
    }
}

/// The scripts of the module loaded last are searched first: the search path
/// begins with that module's pattern.
pub proof fn lemma_last_loaded_searched_first(base: Seq<char>, dirs: Seq<Seq<char>>)
    requires
        dirs.len() > 0,
    ensures
        lua_search_path(base, dirs).len() >= lua_pattern(base, dirs.last()).len(),
        lua_search_path(base, dirs).subrange(0, lua_pattern(base, dirs.last()).len() as int)
            == lua_pattern(base, dirs.last()),
{
    let pieces = dirs.map_values(|d: Seq<char>| lua_pattern(base, d)).reverse();
    assert(pieces[0] == lua_pattern(base, dirs.last()));
    lemma_join_starts_with_first(pieces, seq![';']);
}

/// The search path of one module directory is its pattern, `base/dir/?.lua`; with
/// a second directory loaded after it, the second's pattern comes first, then `;`,
/// then the first's.
pub proof fn lemma_search_path_small(base: Seq<char>, first: Seq<char>, second: Seq<char>)
    ensures
        lua_search_path(base, seq![first]) == base + seq!['/'] + first + "/?.lua"@,
        lua_search_path(base, seq![first, second]) == (base + seq!['/'] + second + "/?.lua"@) + seq![';']
            + (base + seq!['/'] + first + "/?.lua"@),
{
    let one = seq![first].map_values(|d: Seq<char>| lua_pattern(base, d)).reverse();
    assert(one =~= seq![lua_pattern(base, first)]);
    let two = seq![first, second].map_values(|d: Seq<char>| lua_pattern(base, d)).reverse();
    assert(two =~= seq![lua_pattern(base, second), lua_pattern(base, first)]);
    assert(two.drop_last() =~= seq![lua_pattern(base, second)]);
    assert(two.last() == lua_pattern(base, first));
    assert(join(two.drop_last(), seq![';']) == lua_pattern(base, second));
    assert(join(two, seq![';']) == join(two.drop_last(), seq![';']) + seq![';'] + two.last());
}

/// Without the game's own assets among them, the directories scanned for
/// overriding files are the module directories themselves, under the base path,
/// in load order.
pub proof fn lemma_override_dirs_all(base: Seq<char>, dirs: Seq<Seq<char>>)
    requires
        forall|j: int| 0 <= j < dirs.len() ==> dirs[j] != ASSETS_DIR@,
    ensures
        override_dirs(base, dirs).len() == dirs.len(),
        forall|j: int| 0 <= j < dirs.len() ==> #[trigger] override_dirs(base, dirs)[j] == base + seq!['/']
            + dirs[j],
    decreases dirs.len(),
{
    if dirs.len() > 0 {
        let init = dirs.drop_last();
        assert forall|j: int| 0 <= j < init.len() implies init[j] != ASSETS_DIR@ by {
            assert(init[j] == dirs[j]);
        }
        lemma_override_dirs_all(base, init);
        assert(dirs.last() == dirs[dirs.len() - 1]);
        assert forall|j: int| 0 <= j < dirs.len() implies #[trigger] override_dirs(base, dirs)[j]
            == base + seq!['/'] + dirs[j] by {
            if j < init.len() {
                assert(init[j] == dirs[j]);
            }
        }
    }
}

/// The game's own assets are never scanned for overriding files.
pub proof fn lemma_assets_never_scanned(base: Seq<char>, dirs: Seq<Seq<char>>)
    ensures
        dirs.len() > 0 && dirs.last() == ASSETS_DIR@ ==> override_dirs(base, dirs) == override_dirs(
            base,
            dirs.drop_last(),
        ),
        override_dirs(base, dirs).len() <= dirs.len(),
    decreases dirs.len(),
{
    if dirs.len() > 0 {
        lemma_assets_never_scanned(base, dirs.drop_last());
    }
}

/// Whether a file found under a module directory overrides the game's file
/// at the same relative path: every file does but module definitions.
pub fn is_override_file(file_name: &str) -> (r: bool)
    ensures
        r == !ends_with(file_name@, MOD_FILE_SUFFIX@),
{
    strip_suffix(file_name, MOD_FILE_SUFFIX).is_none()
}

/// How far the loading of one module definition has come.
#[derive(Clone, Copy, Debug, PartialEq, Eq, Structural)]
pub enum DefLoad {
    Pending,
    Loaded,
    Failed,
}

/// What the loading of the module definitions calls for next.
#[derive(Clone, Debug, PartialEq, Eq)]
pub enum DefsProgress {
    /// Some definitions are still loading.
    Waiting,
    /// Every definition has loaded: the load order can be computed.
    Ready,
    /// The definition of this module failed to load, which stops the game.
    Failed(String),
}

/// The first definition in `states` that failed to load is at `i`.
pub open spec fn first_failed(states: Seq<(String, DefLoad)>, i: int) -> bool {
    &&& 0 <= i < states.len()
    &&& states[i].1 == DefLoad::Failed
    &&& forall|j: int| 0 <= j < i ==> #[trigger] states[j].1 != DefLoad::Failed
}

/// Judges the loading of the module definitions from the state of each.
pub fn defs_progress(states: &Vec<(String, DefLoad)>) -> (r: DefsProgress)
    ensures
        match r {
            DefsProgress::Failed(name) => exists|i: int|
                first_failed(states@, i) && #[trigger] states@[i].0@ == name@,
            DefsProgress::Waiting => (forall|i: int|
                0 <= i < states@.len() ==> #[trigger] states@[i].1 != DefLoad::Failed) && exists|
                i: int,
            | 0 <= i < states@.len() && #[trigger] states@[i].1 == DefLoad::Pending,
            DefsProgress::Ready => forall|i: int|
                0 <= i < states@.len() ==> #[trigger] states@[i].1 == DefLoad::Loaded,
        },
{
    let mut done = true;
    let mut i: usize = 0;
    while i < states.len()
        invariant
            i <= states@.len(),
            forall|j: int| 0 <= j < i ==> #[trigger] states@[j].1 != DefLoad::Failed,
            done <==> forall|j: int| 0 <= j < i ==> #[trigger] states@[j].1 == DefLoad::Loaded,
        decreases states@.len() - i,
    {
        match states[i].1 {
            DefLoad::Failed => {
                let name = states[i].0.clone();
                assert(first_failed(states@, i as int) && states@[i as int].0@ == name@);
                return DefsProgress::Failed(name);
            },
            DefLoad::Loaded => {},
            DefLoad::Pending => {
                done = false;
            },
        }
        i = i + 1;
    }
    if done {
        DefsProgress::Ready
    } else {
        DefsProgress::Waiting
    }
}

/// Where the loading of the mod list stands.
pub enum ModLoadState {
    /// Waiting for the module definitions.
    LoadingModDefs,
    /// Starting the scripts of each wave of modules in turn: the waves still to
    /// start, and the script runners of the wave started last.
    LoadingScripts { remaining: VecDeque<Vec<String>>, current: Vec<u64> },
}

/// What the script stage calls for next.
#[derive(Clone, Debug, PartialEq, Eq)]
pub enum ScriptStep {
    /// Every wave has started: the loading is over.
    Finish,
    /// The scripts of the last wave are still running.
    Wait,
    /// Start the startup scripts of these modules.
    Spawn(Vec<String>),
}

impl Default for ModLoadState {
    fn default() -> (s: ModLoadState)
        ensures
            s is LoadingModDefs,
    {
        ModLoadState::LoadingModDefs
    }
}

impl ModLoadState {
    /// The script stage for a load order, before any wave has started.
    pub fn start_scripts(order: Vec<Vec<String>>) -> (s: ModLoadState)
        ensures
            s matches ModLoadState::LoadingScripts { remaining, current } && remaining@ == order@
                && current@.len() == 0,
    {
        let mut remaining = VecDeque::new();
        let mut i: usize = 0;
        let mut order = order;
        let ghost all = order@;
        let n = order.len();
        while order.len() > 0
            invariant
                all.len() == n,
                order@ == all.subrange(i as int, all.len() as int),
                remaining@ == all.take(i as int),
                i <= all.len(),
            decreases order@.len(),
        {
            let wave = order.remove(0);
            remaining.push_back(wave);
            assert(all.take(i + 1) =~= all.take(i as int).push(wave));
            i = i + 1;
            assert(order@ =~= all.subrange(i as int, all.len() as int));
        }
        assert(all.take(i as int) =~= all);
        ModLoadState::LoadingScripts { remaining, current: Vec::new() }
    }

    /// One step of the script stage, given whether every script runner of the
    /// wave started last has finished. A wave is started only then.
    pub fn step_scripts(&mut self, current_ready: bool) -> (r: ScriptStep)
        ensures
            match *old(self) {
                ModLoadState::LoadingModDefs => r == ScriptStep::Wait && *final(self) == *old(self),
                ModLoadState::LoadingScripts { remaining, current } => if remaining@.len() == 0 {
                    r == ScriptStep::Finish && *final(self) == *old(self)
                } else if !current_ready {
                    r == ScriptStep::Wait && *final(self) == *old(self)
                } else {
                    r == ScriptStep::Spawn(remaining@[0]) && match *final(self) {
                        ModLoadState::LoadingScripts { remaining: rest, current: now } => rest@
                            == remaining@.drop_first() && now == current,
                        _ => false,
                    }
                },
            },
    {
        match self {
            ModLoadState::LoadingModDefs => ScriptStep::Wait,
            ModLoadState::LoadingScripts { remaining, current: _ } => {
                if remaining.len() == 0 {
                    ScriptStep::Finish
                } else if !current_ready {
                    ScriptStep::Wait
                } else {
                    match remaining.pop_front() {
                        Some(wave) => ScriptStep::Spawn(wave),
                        None => ScriptStep::Finish,
                    }
                }
            },
        }
    }

    /// Records the script runners of the wave just started.
    pub fn set_current(&mut self, runners: Vec<u64>)
        ensures
            match *old(self) {
                ModLoadState::LoadingModDefs => *final(self) == *old(self),
                ModLoadState::LoadingScripts { remaining, current: _ } => match *final(self) {
                    ModLoadState::LoadingScripts { remaining: rest, current: now } => rest
                        == remaining && now == runners,
                    _ => false,
                },
            },
    {
        match self {
            ModLoadState::LoadingModDefs => {},
            ModLoadState::LoadingScripts { remaining: _, current } => {
                *current = runners;
            },
        }
    }
}

} // verus!
