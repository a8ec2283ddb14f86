//! Localised text: per-language tables of lines, and the dictionary that merges
//! the tables that modules contribute.

use vstd::prelude::*;
use crate::keyed::{KeyedRows, entry_map, entry_keys_unique, lemma_entry_map_push,
    lemma_entry_map_absent};

verus! {

/// The language a dictionary starts in.
pub const ENGLISH: &'static str = "english";

/// The lines of one language: each line's key to its text.
pub struct Lines {
    entries: KeyedRows<String>,
}

impl View for Lines {
    type V = Map<Seq<char>, Seq<char>>;

    closed spec fn view(&self) -> Map<Seq<char>, Seq<char>> {
        self.entries@.map_values(|t: String| t@)
    }
}

impl Lines {
    /// A table with no lines.
    pub fn new() -> (l: Lines)
        ensures
            l@ == Map::<Seq<char>, Seq<char>>::empty(),
    {
        let l = Lines { entries: KeyedRows::new() };
        assert(l@ =~= Map::<Seq<char>, Seq<char>>::empty());
        l
    }

    /// The number of lines.
    pub fn len(&self) -> (n: usize)
        ensures
            n == self@.len(),
    {
        assert(self@.dom() =~= self.entries@.dom());
        self.entries.len()
    }

    /// Whether there are no lines.
    pub fn is_empty(&self) -> (b: bool)
        ensures
            b == (self@.len() == 0),
    {
        self.len() == 0
    }

    /// The lines as pairs of key and text, each key once.
    pub fn pairs(&self) -> (r: &Vec<(String, String)>)
        ensures
            entry_map(r@).map_values(|t: String| t@) == self@,
            entry_keys_unique(r@),
    {
        self.entries.entries()
    }

    /// The text of the line under `key`.
    pub fn get(&self, key: &str) -> (r: Option<&String>)
        ensures
            match r {
                Some(t) => self@.dom().contains(key@) && t@ == self@[key@],
                None => !self@.dom().contains(key@),
            },
    {
        self.entries.get(&key.to_owned())
    }

    /// Sets the text of the line under `key`, replacing any text it had.
    pub fn insert(&mut self, key: String, text: String)
        ensures
            final(self)@ == old(self)@.insert(key@, text@),
    {
        self.entries.insert(key, text);
        assert(self@ =~= old(self)@.insert(key@, text@));
    }

    /// Adds every line of `other`, replacing the text of lines already here.
    pub fn extend_from(&mut self, other: &Lines)
        ensures
            final(self)@ == old(self)@.union_prefer_right(other@),
    {
        let es = other.entries.entries();
        let n = es.len();
        let mut i: usize = 0;
        assert(entry_map(es@.take(0)) =~= Map::<Seq<char>, String>::empty());
        assert(self@ =~= old(self)@.union_prefer_right(
            entry_map(es@.take(0)).map_values(|t: String| t@),
        ));
        while i < n
            invariant
                n == es@.len(),
                entry_keys_unique(es@),
                entry_map(es@) == other.entries@,
                i <= n,
                self@ == old(self)@.union_prefer_right(
                    entry_map(es@.take(i as int)).map_values(|t: String| t@),
                ),
            decreases n - i,
        {
            let k = es[i].0.clone();
            let t = es[i].1.clone();
            self.insert(k, t);
            proof {
                let s = es@;
                let pre = s.take(i as int);
                let post = s.take(i + 1);
                assert(entry_keys_unique(pre)) by {
                    assert forall|a: int, b: int|
                        0 <= a < pre.len() && 0 <= b < pre.len() && #[trigger] pre[a].0@
                            == #[trigger] pre[b].0@ implies a == b by {
                        assert(s[a].0@ == s[b].0@);
                    }
                }
                assert(post =~= pre.push(s[i as int]));
                assert forall|j: int| 0 <= j < pre.len() implies #[trigger] pre[j].0@ != s[i as int].0@ by {
                    assert(s[j].0@ != s[i as int].0@);
                }
                lemma_entry_map_absent(pre, s[i as int].0@);
                lemma_entry_map_push(pre, s[i as int].0, s[i as int].1);
                assert(self@ =~= old(self)@.union_prefer_right(
                    entry_map(post).map_values(|t: String| t@),
                ));
            }
            i = i + 1;
        }
        assert(es@.take(n as int) =~= es@);
        assert(other@ =~= entry_map(es@).map_values(|t: String| t@));
    }
}

impl Default for Lines {
    fn default() -> (l: Lines)
        ensures
            l@ == Map::<Seq<char>, Seq<char>>::empty(),
    {
        Lines::new()
    }
}

/// What merging the table `lines` into language `lang` makes of the dictionary `d`:
/// the language gets every line of `lines`, keeps its other lines, and is created
/// when it was missing; other languages stay as they were.
pub open spec fn merged(
    d: Map<Seq<char>, Map<Seq<char>, Seq<char>>>,
    lang: Seq<char>,
    lines: Map<Seq<char>, Seq<char>>,
) -> Map<Seq<char>, Map<Seq<char>, Seq<char>>> {
    let before = if d.dom().contains(lang) {
        d[lang]
    } else {
        Map::empty()
    };
    d.insert(lang, before.union_prefer_right(lines))
}

/// Merging the same table twice into a language leaves the dictionary as one
/// merge does.
pub proof fn lemma_merge_idempotent(
    d: Map<Seq<char>, Map<Seq<char>, Seq<char>>>,
    lang: Seq<char>,
    lines: Map<Seq<char>, Seq<char>>,
)
    ensures
        merged(merged(d, lang, lines), lang, lines) == merged(d, lang, lines),
{
    let once = merged(d, lang, lines);
    assert(once[lang].union_prefer_right(lines) =~= once[lang]);
    assert(merged(once, lang, lines) =~= once);
}

/// After a merge, a line of the merged table reads back as its new text, every
/// other line of that language reads as before, and other languages are untouched.
pub proof fn lemma_merge_lookup(
    d: Map<Seq<char>, Map<Seq<char>, Seq<char>>>,
    lang: Seq<char>,
    lines: Map<Seq<char>, Seq<char>>,
    other: Seq<char>,
    key: Seq<char>,
)
    ensures
        merged(d, lang, lines).dom().contains(lang),
        lines.dom().contains(key) ==> merged(d, lang, lines)[lang].dom().contains(key)
            && merged(d, lang, lines)[lang][key] == lines[key],
        !lines.dom().contains(key) ==> (merged(d, lang, lines)[lang].dom().contains(key) <==> (
        d.dom().contains(lang) && d[lang].dom().contains(key))),
        !lines.dom().contains(key) && d.dom().contains(lang) && d[lang].dom().contains(key)
            ==> merged(d, lang, lines)[lang][key] == d[lang][key],
        other != lang ==> (merged(d, lang, lines).dom().contains(other) <==> d.dom().contains(
            other,
        )),
        other != lang && d.dom().contains(other) ==> merged(d, lang, lines)[other] == d[other],
{
}

/// Merging `first` and then `second` into a language is one merge of `first`
/// with `second` taking precedence.
pub proof fn lemma_merge_compose(
    d: Map<Seq<char>, Map<Seq<char>, Seq<char>>>,
    lang: Seq<char>,
    first: Map<Seq<char>, Seq<char>>,
    second: Map<Seq<char>, Seq<char>>,
)
    ensures
        merged(merged(d, lang, first), lang, second) == merged(
            d,
            lang,
            first.union_prefer_right(second),
        ),
{
    let before = if d.dom().contains(lang) {
        d[lang]
    } else {
        Map::<Seq<char>, Seq<char>>::empty()
    };
    assert(before.union_prefer_right(first).union_prefer_right(second) =~= before.union_prefer_right(
        first.union_prefer_right(second),
    ));
    assert(merged(merged(d, lang, first), lang, second) =~= merged(
        d,
        lang,
        first.union_prefer_right(second),
    ));
}

/// The lines of every language that modules have contributed, and the language
/// in use.
pub struct LineDictionary {
    lines: KeyedRows<Lines>,
    current: String,
}

impl View for LineDictionary {
    type V = Map<Seq<char>, Map<Seq<char>, Seq<char>>>;

    closed spec fn view(&self) -> Map<Seq<char>, Map<Seq<char>, Seq<char>>> {
        self.lines@.map_values(|l: Lines| l@)
    }
}

impl Default for LineDictionary {
    /// An empty dictionary whose language is English.
    fn default() -> (d: LineDictionary)
        ensures
            d@ == Map::<Seq<char>, Map<Seq<char>, Seq<char>>>::empty(),
            d.language() == ENGLISH@,
    {
        let d = LineDictionary { lines: KeyedRows::new(), current: ENGLISH.to_owned() };
        assert(d@ =~= Map::<Seq<char>, Map<Seq<char>, Seq<char>>>::empty());
        d
    }
}

impl LineDictionary {
    /// The language in use.
    pub closed spec fn language(&self) -> Seq<char> {
        self.current@
    }

    /// The language in use.
    pub fn current(&self) -> (r: &String)
        ensures
            r@ == self.language(),
    {
        &self.current
    }

    /// Switches to the language `lang`; the lines stay as they are.
    pub fn set_current(&mut self, lang: String)
        ensures
            final(self).language() == lang@,
            final(self)@ == old(self)@,
    {
        self.current = lang;
    }

    /// The lines of language `lang`.
    pub fn get(&self, lang: &str) -> (r: Option<&Lines>)
        ensures
            match r {
                Some(l) => self@.dom().contains(lang@) && l@ == self@[lang@],
                None => !self@.dom().contains(lang@),
            },
    {
        self.lines.get(&lang.to_owned())
    }

    /// Adds the lines of `lines` to language `lang`, creating the language when it
    /// is missing; a line already there under the same key takes the new text.
    pub fn merge(&mut self, lang: &str, lines: &Lines)
        ensures
            final(self)@ == merged(old(self)@, lang@, lines@),
            final(self).language() == old(self).language(),
    {
        let key = lang.to_owned();
        let mut table = match self.lines.remove(&key) {
            Some(existing) => existing,
            None => Lines::new(),
        };
        table.extend_from(lines);
        self.lines.insert(key, table);
        assert(self@ =~= merged(old(self)@, lang@, lines@));
    }
}

} // verus!
