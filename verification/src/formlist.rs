//! Form lists: the lists of assets that levels and scripts draw from, and the
//! commands with which modules inject their own rows into them.
//!
//! The rows of a list are generic: the library only stores, moves and copies
//! them; what a row holds is up to its user.

use vstd::prelude::*;
use crate::keyed::KeyedRows;

verus! {

/// One change that a module asks of a form list.
#[derive(Clone, Debug)]
pub enum InjectCommand<K, R> {
    /// Add a row (at the end, for lists that keep an order).
    Add(R),
    /// Put a row at a position or under a key.
    Insert(K, R),
    /// Take out the row at a position or under a key.
    Remove(K),
}

/// One command applied to the rows of a list that rolls each row: the rows after
/// it, and whether it changed them. A position past the last row changes nothing.
pub open spec fn roll_each_step<R>(rows: Seq<R>, c: InjectCommand<usize, R>) -> (Seq<R>, bool) {
    match c {
        InjectCommand::Add(r) => (rows.push(r), true),
        InjectCommand::Insert(i, r) => if i < rows.len() {
            (rows.insert(i as int, r), true)
        } else {
            (rows, false)
        },
        InjectCommand::Remove(i) => if i < rows.len() {
            (rows.remove(i as int), true)
        } else {
            (rows, false)
        },
    }
}

/// The commands applied in order: the rows after them, and whether any changed them.
pub open spec fn roll_each_result<R>(rows: Seq<R>, cmds: Seq<InjectCommand<usize, R>>) -> (
    Seq<R>,
    bool,
)
    decreases cmds.len(),
{
    if cmds.len() == 0 {
        (rows, false)
    } else {
        let before = roll_each_result(rows, cmds.drop_last());
        let after = roll_each_step(before.0, cmds.last());
        (after.0, before.1 || after.1)
    }
}

/// One command applied to the names of a union list: the names after it, and
/// whether it changed them.
pub open spec fn union_step(names: Set<Seq<char>>, c: InjectCommand<String, String>) -> (
    Set<Seq<char>>,
    bool,
) {
    match c {
        InjectCommand::Add(n) => (names.insert(n@), !names.contains(n@)),
        InjectCommand::Insert(_, _) => (names, false),
        InjectCommand::Remove(n) => (names.remove(n@), names.contains(n@)),
    }
}

/// The commands applied in order to the names of a union list.
pub open spec fn union_result(names: Set<Seq<char>>, cmds: Seq<InjectCommand<String, String>>) -> (
    Set<Seq<char>>,
    bool,
)
    decreases cmds.len(),
{
    if cmds.len() == 0 {
        (names, false)
    } else {
        let before = union_result(names, cmds.drop_last());
        let after = union_step(before.0, cmds.last());
        (after.0, before.1 || after.1)
    }
}

/// One command applied to the rows of a weighted list: the rows after it, and
/// whether it changed them (an insertion always counts as a change).
pub open spec fn weighted_step<W>(rows: Map<Seq<char>, W>, c: InjectCommand<String, W>) -> (
    Map<Seq<char>, W>,
    bool,
) {
    match c {
        InjectCommand::Add(_) => (rows, false),
        InjectCommand::Insert(n, w) => (rows.insert(n@, w), true),
        InjectCommand::Remove(n) => (rows.remove(n@), rows.dom().contains(n@)),
    }
}

/// The commands applied in order to the rows of a weighted list.
pub open spec fn weighted_result<W>(rows: Map<Seq<char>, W>, cmds: Seq<InjectCommand<String, W>>) -> (
    Map<Seq<char>, W>,
    bool,
)
    decreases cmds.len(),
{
    if cmds.len() == 0 {
        (rows, false)
    } else {
        let before = weighted_result(rows, cmds.drop_last());
        let after = weighted_step(before.0, cmds.last());
        (after.0, before.1 || after.1)
    }
}

/// None of the commands is an `Insert`.
pub open spec fn has_no_insert<K, R>(cmds: Seq<InjectCommand<K, R>>) -> bool {
    forall|i: int| 0 <= i < cmds.len() ==> !(#[trigger] cmds[i] is Insert)
}

/// None of the commands is an `Add`.
pub open spec fn has_no_add<K, R>(cmds: Seq<InjectCommand<K, R>>) -> bool {
    forall|i: int| 0 <= i < cmds.len() ==> !(#[trigger] cmds[i] is Add)
}

/// `actual` holds the rows of `expected`, in order, each the row itself or a clone of it.
pub open spec fn rows_cloned<R: Clone>(expected: Seq<R>, actual: Seq<R>) -> bool {
    &&& expected.len() == actual.len()
    &&& forall|i: int| 0 <= i < expected.len() ==> cloned(expected[i], #[trigger] actual[i])
}

/// `actual` holds the rows of `expected` under the same names, each the row itself
/// or a clone of it.
pub open spec fn map_cloned<W: Clone>(expected: Map<Seq<char>, W>, actual: Map<Seq<char>, W>) -> bool {
    &&& expected.dom() == actual.dom()
    &&& forall|k: Seq<char>| #[trigger]
        actual.dom().contains(k) ==> cloned(expected[k], actual[k])
}

/// An injection into a list that rolls each row that reports no change has left
/// the rows as they were.
pub proof fn lemma_roll_each_unchanged<R>(rows: Seq<R>, cmds: Seq<InjectCommand<usize, R>>)
    ensures
        !roll_each_result(rows, cmds).1 ==> roll_each_result(rows, cmds).0 == rows,
    decreases cmds.len(),
{
    if cmds.len() > 0 {
        lemma_roll_each_unchanged(rows, cmds.drop_last());
    }
}

/// An injection into a union list that reports no change has left the names as
/// they were.
pub proof fn lemma_union_unchanged(names: Set<Seq<char>>, cmds: Seq<InjectCommand<String, String>>)
    ensures
        !union_result(names, cmds).1 ==> union_result(names, cmds).0 == names,
    decreases cmds.len(),
{
    if cmds.len() > 0 {
        lemma_union_unchanged(names, cmds.drop_last());
        let before = union_result(names, cmds.drop_last()).0;
        match cmds.last() {
            InjectCommand::Add(n) => {
                if before.contains(n@) {
                    assert(before.insert(n@) =~= before);
                }
            },
            InjectCommand::Remove(n) => {
                if !before.contains(n@) {
                    assert(before.remove(n@) =~= before);
                }
            },
            _ => {},
        }
    }
}

/// An injection into a weighted list that reports no change has left the rows as
/// they were.
pub proof fn lemma_weighted_unchanged<W>(rows: Map<Seq<char>, W>, cmds: Seq<InjectCommand<String, W>>)
    ensures
        !weighted_result(rows, cmds).1 ==> weighted_result(rows, cmds).0 == rows,
    decreases cmds.len(),
{
    if cmds.len() > 0 {
        lemma_weighted_unchanged(rows, cmds.drop_last());
        let before = weighted_result(rows, cmds.drop_last()).0;
        match cmds.last() {
            InjectCommand::Remove(n) => {
                if !before.dom().contains(n@) {
                    assert(before.remove(n@) =~= before);
                }
            },
            _ => {},
        }
    }
}

/// One command on a list that rolls each row, position by position: `Add` puts
/// the row after the last one; `Insert(i, r)` with `i` below the number of rows
/// puts `r` at position `i` and shifts the rest up; `Remove(i)` with `i` below the
/// number of rows (the last position included) takes out the row at `i` and shifts
/// the rest down. Each of these reports a change; a position at or past the
/// number of rows changes nothing and reports none.
pub proof fn lemma_roll_each_one_command<R>(rows: Seq<R>, c: InjectCommand<usize, R>)
    ensures
        ({
            let (after, changed) = roll_each_result(rows, seq![c]);
            match c {
                InjectCommand::Add(r) => changed && after.len() == rows.len() + 1 && after[rows.len() as int]
                    == r && forall|j: int| 0 <= j < rows.len() ==> after[j] == rows[j],
                InjectCommand::Insert(i, r) => if i < rows.len() {
                    &&& changed
                    &&& after.len() == rows.len() + 1
                    &&& after[i as int] == r
                    &&& forall|j: int| 0 <= j < i ==> after[j] == rows[j]
                    &&& forall|j: int| i < j <= rows.len() ==> after[j] == rows[j - 1]
                } else {
                    !changed && after == rows
                },
                InjectCommand::Remove(i) => if i < rows.len() {
                    &&& changed
                    &&& after.len() == rows.len() - 1
                    &&& forall|j: int| 0 <= j < i ==> after[j] == rows[j]
                    &&& forall|j: int| i <= j < rows.len() - 1 ==> after[j] == rows[j + 1]
                } else {
                    !changed && after == rows
                },
            }
        }),
{
    let one = seq![c];
    assert(one.drop_last() =~= Seq::<InjectCommand<usize, R>>::empty());
    assert(one.last() == c);
    assert(roll_each_result(rows, one.drop_last()) == (rows, false));
    assert(roll_each_result(rows, one) == roll_each_step(rows, c));
    match c {
        InjectCommand::Add(r) => {
            assert(rows.push(r)[rows.len() as int] == r);
        },
        InjectCommand::Insert(i, r) => {
            if i < rows.len() {
                let after = rows.insert(i as int, r);
                assert(after[i as int] == r);
                assert forall|j: int| 0 <= j < i implies after[j] == rows[j] by {}
                assert forall|j: int| i < j <= rows.len() implies after[j] == rows[j - 1] by {}
            }
        },
        InjectCommand::Remove(i) => {
            if i < rows.len() {
                let after = rows.remove(i as int);
                assert forall|j: int| 0 <= j < i implies after[j] == rows[j] by {}
                assert forall|j: int| i <= j < rows.len() - 1 implies after[j] == rows[j + 1] by {}
            }
        },
    }
}

/// Applying two batches of commands one after the other is applying them as one
/// batch, and the batch reports a change when either did.
pub proof fn lemma_roll_each_batches<R>(
    rows: Seq<R>,
    first: Seq<InjectCommand<usize, R>>,
    second: Seq<InjectCommand<usize, R>>,
)
    ensures
        roll_each_result(rows, first + second).0 == roll_each_result(
            roll_each_result(rows, first).0,
            second,
        ).0,
        roll_each_result(rows, first + second).1 == (roll_each_result(rows, first).1
            || roll_each_result(roll_each_result(rows, first).0, second).1),
    decreases second.len(),
{
    if second.len() == 0 {
        assert(first + second =~= first);
    } else {
        lemma_roll_each_batches(rows, first, second.drop_last());
        assert((first + second).drop_last() =~= first + second.drop_last());
        assert((first + second).last() == second.last());
    }
}

/// One command on a union list: `Add` puts the name in and reports a change
/// exactly when it was missing; `Remove` takes it out and reports a change exactly
/// when it was there. No other name is touched.
pub proof fn lemma_union_one_command(names: Set<Seq<char>>, c: InjectCommand<String, String>)
    ensures
        ({
            let (after, changed) = union_result(names, seq![c]);
            match c {
                InjectCommand::Add(n) => (changed <==> !names.contains(n@)) && forall|x: Seq<char>|
                    #[trigger] after.contains(x) <==> (names.contains(x) || x == n@),
                InjectCommand::Remove(n) => (changed <==> names.contains(n@)) && forall|x: Seq<char>|
                    #[trigger] after.contains(x) <==> (names.contains(x) && x != n@),
                InjectCommand::Insert(_, _) => true,
            }
        }),
{
    let one = seq![c];
    assert(one.drop_last() =~= Seq::<InjectCommand<String, String>>::empty());
    assert(one.last() == c);
    assert(union_result(names, one.drop_last()) == (names, false));
    assert(union_result(names, one) == union_step(names, c));
}

/// One command on a weighted list: `Insert` stores the row under its name,
/// replacing any row there, and always reports a change; `Remove` takes the name
/// out and reports a change exactly when it was there. Rows under other names are
/// untouched.
pub proof fn lemma_weighted_one_command<W>(rows: Map<Seq<char>, W>, c: InjectCommand<String, W>)
    ensures
        ({
            let (after, changed) = weighted_result(rows, seq![c]);
            match c {
                InjectCommand::Insert(n, w) => {
                    &&& changed
                    &&& after.dom().contains(n@) && after[n@] == w
                    &&& forall|x: Seq<char>|
                        x != n@ ==> (#[trigger] after.dom().contains(x) <==> rows.dom().contains(x))
                    &&& forall|x: Seq<char>|
                        x != n@ && rows.dom().contains(x) ==> #[trigger] after[x] == rows[x]
                },
                InjectCommand::Remove(n) => {
                    &&& changed <==> rows.dom().contains(n@)
                    &&& !after.dom().contains(n@)
                    &&& forall|x: Seq<char>|
                        x != n@ ==> (#[trigger] after.dom().contains(x) <==> rows.dom().contains(x))
                    &&& forall|x: Seq<char>|
                        x != n@ && rows.dom().contains(x) ==> #[trigger] after[x] == rows[x]
                },
                InjectCommand::Add(_) => true,
            }
        }),
{
    let one = seq![c];
    assert(one.drop_last() =~= Seq::<InjectCommand<String, W>>::empty());
    assert(one.last() == c);
    assert(weighted_result(rows, one.drop_last()) == (rows, false));
    assert(weighted_result(rows, one) == weighted_step(rows, c));
}

/// A list of assets to draw from.
pub enum FormList<R, W> {
    /// Rows that are each rolled for on their own.
    RollEach(Vec<R>),
    /// Names of which all are taken.
    Union(KeyedRows<()>),
    /// Named rows of which one is drawn by weight.
    Weighted(KeyedRows<W>),
}

fn apply_roll_each<R: Clone>(rows: &mut Vec<R>, commands: &Vec<InjectCommand<usize, R>>) -> (changed: bool)
    ensures
        rows_cloned(roll_each_result(old(rows)@, commands@).0, final(rows)@),
        changed == roll_each_result(old(rows)@, commands@).1,
{
    let mut changed = false;
    let mut i: usize = 0;
    let ghost rows0 = rows@;
    while i < commands.len()
        invariant
            i <= commands@.len(),
            rows0 == old(rows)@,
            rows_cloned(roll_each_result(rows0, commands@.take(i as int)).0, rows@),
            changed == roll_each_result(rows0, commands@.take(i as int)).1,
        decreases commands@.len() - i,
    {
        let ghost before = rows@;
        let ghost expected = roll_each_result(rows0, commands@.take(i as int)).0;
        assert(commands@.take(i + 1).drop_last() =~= commands@.take(i as int));
        match &commands[i] {
            InjectCommand::Add(row) => {
                rows.push(row.clone());
                changed = true;
                assert(rows_cloned(expected.push(*row), rows@));
            },
            InjectCommand::Insert(idx, row) => {
                if *idx < rows.len() {
                    rows.insert(*idx, row.clone());
                    changed = true;
                    assert forall|j: int| 0 <= j < rows@.len() implies cloned(
                        expected.insert(*idx as int, *row)[j],
                        #[trigger] rows@[j],
                    ) by {
                        if j > *idx {
                            assert(rows@[j] == before[j - 1]);
                        }
                    }
                }
            },
            InjectCommand::Remove(idx) => {
                if *idx < rows.len() {
                    rows.remove(*idx);
                    changed = true;
                    assert forall|j: int| 0 <= j < rows@.len() implies cloned(
                        expected.remove(*idx as int)[j],
                        #[trigger] rows@[j],
                    ) by {
                        if j >= *idx {
                            assert(rows@[j] == before[j + 1]);
                        }
                    }
                }
            },
        }
        i = i + 1;
    }
    assert(commands@.take(commands@.len() as int) =~= commands@);
    changed
}

fn apply_union(names: &mut KeyedRows<()>, commands: &Vec<InjectCommand<String, String>>) -> (changed: bool)
    requires
        has_no_insert(commands@),
    ensures
        final(names)@.dom() == union_result(old(names)@.dom(), commands@).0,
        changed == union_result(old(names)@.dom(), commands@).1,
{
    let mut changed = false;
    let mut i: usize = 0;
    let ghost names0 = names@.dom();
    while i < commands.len()
        invariant
            i <= commands@.len(),
            names0 == old(names)@.dom(),
            has_no_insert(commands@),
            names@.dom() == union_result(names0, commands@.take(i as int)).0,
            changed == union_result(names0, commands@.take(i as int)).1,
        decreases commands@.len() - i,
    {
        assert(commands@.take(i + 1).drop_last() =~= commands@.take(i as int));
        let ghost before = names@;
        match &commands[i] {
            InjectCommand::Add(name) => {
                let fresh = !names.contains(name);
                names.insert(name.clone(), ());
                changed = changed || fresh;
                assert(names@.dom() =~= before.dom().insert(name@));
            },
            InjectCommand::Insert(_, _) => {
                assert(commands@[i as int] is Insert);
            },
            InjectCommand::Remove(name) => {
                let removed = names.remove(name);
                changed = changed || removed.is_some();
                assert(names@.dom() =~= before.dom().remove(name@));
            },
        }
        i = i + 1;
    }
    assert(commands@.take(commands@.len() as int) =~= commands@);
    changed
}

fn apply_weighted<W: Clone>(rows: &mut KeyedRows<W>, commands: &Vec<InjectCommand<String, W>>) -> (changed: bool)
    requires
        has_no_add(commands@),
    ensures
        map_cloned(weighted_result(old(rows)@, commands@).0, final(rows)@),
        changed == weighted_result(old(rows)@, commands@).1,
{
    let mut changed = false;
    let mut i: usize = 0;
    let ghost rows0 = rows@;
    while i < commands.len()
        invariant
            i <= commands@.len(),
            rows0 == old(rows)@,
            has_no_add(commands@),
            map_cloned(weighted_result(rows0, commands@.take(i as int)).0, rows@),
            changed == weighted_result(rows0, commands@.take(i as int)).1,
        decreases commands@.len() - i,
    {
        assert(commands@.take(i + 1).drop_last() =~= commands@.take(i as int));
        let ghost before = rows@;
        let ghost expected = weighted_result(rows0, commands@.take(i as int)).0;
        match &commands[i] {
            InjectCommand::Add(_) => {
                assert(commands@[i as int] is Add);
            },
            InjectCommand::Insert(name, row) => {
                rows.insert(name.clone(), row.clone());
                changed = true;
                assert(expected.insert(name@, *row).dom() =~= rows@.dom());
            },
            InjectCommand::Remove(name) => {
                let removed = rows.remove(name);
                changed = changed || removed.is_some();
                assert(expected.remove(name@).dom() =~= rows@.dom());
            },
        }
        i = i + 1;
    }
    assert(commands@.take(commands@.len() as int) =~= commands@);
    changed
}

impl<R: Clone, W: Clone> FormList<R, W> {
    /// Applies the commands in order to a list that rolls each row, and says
    /// whether any of them changed it. A list of another kind is left as it is.
    pub fn inject_roll_each(&mut self, commands: &Vec<InjectCommand<usize, R>>) -> (changed: bool)
        ensures
            match *old(self) {
                FormList::RollEach(rows) => match *final(self) {
                    FormList::RollEach(now) => rows_cloned(
                        roll_each_result(rows@, commands@).0,
                        now@,
                    ) && changed == roll_each_result(rows@, commands@).1,
                    _ => false,
                },
                _ => *final(self) == *old(self) && !changed,
            },
    {
        match self {
            FormList::RollEach(rows) => apply_roll_each(rows, commands),
            _ => false,
        }
    }

    /// Applies the commands in order to a union list, and says whether any of
    /// them changed it. A list of another kind is left as it is.
    pub fn inject_union(&mut self, commands: &Vec<InjectCommand<String, String>>) -> (changed: bool)
        requires
            *old(self) is Union ==> has_no_insert(commands@),
        ensures
            match *old(self) {
                FormList::Union(names) => match *final(self) {
                    FormList::Union(now) => now@.dom() == union_result(names@.dom(), commands@).0
                        && changed == union_result(names@.dom(), commands@).1,
                    _ => false,
                },
                _ => *final(self) == *old(self) && !changed,
            },
    {
        match self {
            FormList::Union(names) => apply_union(names, commands),
            _ => false,
        }
    }

    /// Applies the commands in order to a weighted list, and says whether any of
    /// them changed it. A list of another kind is left as it is.
    pub fn inject_weighted(&mut self, commands: &Vec<InjectCommand<String, W>>) -> (changed: bool)
        requires
            *old(self) is Weighted ==> has_no_add(commands@),
        ensures
            match *old(self) {
                FormList::Weighted(rows) => match *final(self) {
                    FormList::Weighted(now) => map_cloned(
                        weighted_result(rows@, commands@).0,
                        now@,
                    ) && changed == weighted_result(rows@, commands@).1,
                    _ => false,
                },
                _ => *final(self) == *old(self) && !changed,
            },
    {
        match self {
            FormList::Weighted(rows) => apply_weighted(rows, commands),
            _ => false,
        }
    }
}


impl<R, W> FormList<R, W> {
    /// The name scripts know the kind of the list by.
    pub open spec fn spec_kind(self) -> Seq<char> {
        match self {
            FormList::RollEach(_) => "roll_each"@,
            FormList::Union(_) => "union"@,
            FormList::Weighted(_) => "weighted"@,
        }
    }

    /// The name scripts know the kind of the list by.
    pub fn kind(&self) -> (r: &'static str)
        ensures
            r@ == self.spec_kind(),
    {
        match self {
            FormList::RollEach(_) => "roll_each",
            FormList::Union(_) => "union",
            FormList::Weighted(_) => "weighted",
        }
    }

    /// The row of a list with `len` rows that a script's index names: scripts
    /// count from 1, and an index out of range names none.
    pub fn script_slot(key: i64, len: usize) -> (r: Option<usize>)
        requires
            key > i64::MIN,
        ensures
            r == if 1 <= key && key - 1 < len {
                Some((key - 1) as usize)
            } else {
                None::<usize>
            },
    {
        let idx = key - 1;
        if idx < 0 {
            None
        } else if (idx as u64) < (len as u64) {
            Some(idx as usize)
        } else {
            None
        }
    }

    /// A script's `remove` with an index, on a list that rolls each row: takes out
    /// the row at that index (counted from 1) when it is past the first row and in
    /// range; the first row is never taken out this way. Other lists are left as
    /// they are.
    pub fn script_remove_index(&mut self, key: i64)
        requires
            key > i64::MIN,
        ensures
            match *old(self) {
                FormList::RollEach(rows) => match *final(self) {
                    FormList::RollEach(now) => now@ == if 2 <= key && key <= rows@.len() {
                        rows@.remove(key - 1)
                    } else {
                        rows@
                    },
                    _ => false,
                },
                _ => *final(self) == *old(self),
            },
    {
        match self {
            FormList::RollEach(rows) => {
                let idx = key - 1;
                if !(idx <= 0 || (idx as u64) >= (rows.len() as u64)) {
                    rows.remove(idx as usize);
                }
            },
            _ => {},
        }
    }

    /// A script's `remove` with a name, on a union or weighted list: takes out the
    /// row under that name, if any. A list that rolls each row is left as it is.
    pub fn script_remove_name(&mut self, name: &String)
        ensures
            match *old(self) {
                FormList::Union(names) => match *final(self) {
                    FormList::Union(now) => now@ == names@.remove(name@),
                    _ => false,
                },
                FormList::Weighted(rows) => match *final(self) {
                    FormList::Weighted(now) => now@ == rows@.remove(name@),
                    _ => false,
                },
                _ => *final(self) == *old(self),
            },
    {
        match self {
            FormList::Union(names) => {
                names.remove(name);
            },
            FormList::Weighted(rows) => {
                rows.remove(name);
            },
            _ => {},
        }
    }
}

} // verus!
