//! Text helpers: the ordering of names as `String` orders them, and suffixes.

use vstd::prelude::*;

verus! {

/// Lexicographic order on character sequences: `a` comes strictly before `b`.
/// For valid strings this is the order of `String` (UTF-8 byte order and code-point
/// order agree).
pub open spec fn seq_lt(a: Seq<char>, b: Seq<char>) -> bool
    decreases a.len(),
{
    if a.len() == 0 {
        b.len() > 0
    } else if b.len() == 0 {
        false
    } else if a[0] < b[0] {
        true
    } else if a[0] > b[0] {
        false
    } else {
        seq_lt(a.drop_first(), b.drop_first())
    }
}

/// No sequence comes before itself.
pub proof fn lemma_seq_lt_irreflexive(a: Seq<char>)
    ensures
        !seq_lt(a, a),
    decreases a.len(),
{
    if a.len() > 0 {
        lemma_seq_lt_irreflexive(a.drop_first());
    }
}

/// The order is transitive.
pub proof fn lemma_seq_lt_transitive(a: Seq<char>, b: Seq<char>, c: Seq<char>)
    requires
        seq_lt(a, b),
        seq_lt(b, c),
    ensures
        seq_lt(a, c),
    decreases a.len(),
{
    if a.len() > 0 && b.len() > 0 && c.len() > 0 {
        if a[0] == b[0] && b[0] == c[0] {
            lemma_seq_lt_transitive(a.drop_first(), b.drop_first(), c.drop_first());
        }
    }
}

/// Two different sequences are ordered one way or the other.
pub proof fn lemma_seq_lt_total(a: Seq<char>, b: Seq<char>)
    requires
        a != b,
    ensures
        seq_lt(a, b) || seq_lt(b, a),
    decreases a.len(),
{
    if a.len() == 0 {
        if b.len() == 0 {
            assert(a =~= b);
        }
    } else if b.len() > 0 {
        if a[0] == b[0] {
            assert(a[0] == b[0]);
            if a.drop_first() == b.drop_first() {
                assert(a =~= seq![a[0]] + a.drop_first());
                assert(b =~= seq![b[0]] + b.drop_first());
            }
            lemma_seq_lt_total(a.drop_first(), b.drop_first());
        }
    }
}

/// The order is asymmetric.
pub proof fn lemma_seq_lt_asymmetric(a: Seq<char>, b: Seq<char>)
    requires
        seq_lt(a, b),
    ensures
        !seq_lt(b, a),
{
    if seq_lt(b, a) {
        lemma_seq_lt_transitive(a, b, a);
        lemma_seq_lt_irreflexive(a);
    }
}

/// Names are ordered from their first character: of two names starting with
/// different characters, the one with the smaller first character comes first,
/// whatever follows.
pub proof fn lemma_seq_lt_first_char(c: char, d: char, a: Seq<char>, b: Seq<char>)
    requires
        c != d,
    ensures
        seq_lt(seq![c] + a, seq![d] + b) <==> c < d,
{
    let x = seq![c] + a;
    let y = seq![d] + b;
    assert(x[0] == c && y[0] == d);
}

/// Names that start with the same character are ordered as the rest of them.
pub proof fn lemma_seq_lt_common_first(c: char, a: Seq<char>, b: Seq<char>)
    ensures
        seq_lt(seq![c] + a, seq![c] + b) == seq_lt(a, b),
{
    let x = seq![c] + a;
    let y = seq![c] + b;
    assert(x[0] == c && y[0] == c);
    assert(x.drop_first() =~= a);
    assert(y.drop_first() =~= b);
}

/// A name comes before every longer name that extends it, and nothing comes
/// before the empty name.
pub proof fn lemma_seq_lt_prefix(a: Seq<char>, rest: Seq<char>)
    ensures
        rest.len() > 0 ==> seq_lt(a, a + rest),
        !seq_lt(a, Seq::<char>::empty()),
    decreases a.len(),
{
    if a.len() > 0 {
        let c = a[0];
        assert(a =~= seq![c] + a.drop_first());
        assert(a + rest =~= seq![c] + (a.drop_first() + rest));
        lemma_seq_lt_common_first(c, a.drop_first(), a.drop_first() + rest);
        lemma_seq_lt_prefix(a.drop_first(), rest);
    } else {
        assert(a + rest =~= rest);
    }
}

/// A text followed by a suffix ends with that suffix, and dropping the suffix
/// gives the text back; a text shorter than a suffix does not end with it.
pub proof fn lemma_suffix_roundtrip(p: Seq<char>, suffix: Seq<char>)
    ensures
        ends_with(p + suffix, suffix),
        drop_end(p + suffix, suffix.len()) == p,
        p.len() < suffix.len() ==> !ends_with(p, suffix),
{
    assert((p + suffix).subrange(p.len() as int, (p + suffix).len() as int) =~= suffix);
    assert(drop_end(p + suffix, suffix.len()) =~= p);
}

/// Text with no `{` in it is copied as it is, followed by the next parameter if
/// one is left.
pub proof fn lemma_filled_plain(s: Seq<char>, params: Seq<String>, idx: int)
    requires
        forall|j: int| 0 <= j < s.len() ==> s[j] != '{',
    ensures
        filled(s, params, idx) == s + param_or_empty(params, idx),
    decreases s.len(),
{
    if s.len() > 0 {
        assert(s[0] != '{');
        let rest = s.skip(1);
        assert forall|j: int| 0 <= j < rest.len() implies rest[j] != '{' by {
            assert(rest[j] == s[j + 1]);
        }
        lemma_filled_plain(rest, params, idx);
        assert(s =~= seq![s[0]] + rest);
        assert(filled(s, params, idx) =~= s + param_or_empty(params, idx));
    } else {
        assert(s + param_or_empty(params, idx) =~= param_or_empty(params, idx));
    }
}

/// A placeholder at the front takes the next parameter, and the rest of the text
/// goes on with the one after it.
pub proof fn lemma_filled_placeholder(s: Seq<char>, params: Seq<String>, idx: int)
    ensures
        filled(seq!['{', '}'] + s, params, idx) == param_or_empty(params, idx) + filled(
            s,
            params,
            idx + 1,
        ),
{
    let t = seq!['{', '}'] + s;
    assert(t[0] == '{' && t[1] == '}');
    assert(t.skip(2) =~= s);
}

/// Whether `a` comes strictly before `b` in `String` order.
pub fn str_lt(a: &String, b: &String) -> (r: bool)
    ensures
        r == seq_lt(a@, b@),
{
    let sa = a.as_str();
    let sb = b.as_str();
    let la = sa.unicode_len();
    let lb = sb.unicode_len();
    let mut i: usize = 0;
    assert(a@.skip(0) =~= a@);
    assert(b@.skip(0) =~= b@);
    while i < la && i < lb
        invariant
            sa@ == a@,
            sb@ == b@,
            la == a@.len(),
            lb == b@.len(),
            i <= la,
            i <= lb,
            seq_lt(a@, b@) == seq_lt(a@.skip(i as int), b@.skip(i as int)),
        decreases la - i,
    {
        let ca = sa.get_char(i);
        let cb = sb.get_char(i);
        let ghost sa_i = a@.skip(i as int);
        let ghost sb_i = b@.skip(i as int);
        assert(sa_i[0] == ca && sb_i[0] == cb);
        if ca < cb {
            return true;
        } else if ca > cb {
            return false;
        }
        assert(sa_i.drop_first() =~= a@.skip(i + 1));
        assert(sb_i.drop_first() =~= b@.skip(i + 1));
        i = i + 1;
    }
    let ghost sa_i = a@.skip(i as int);
    let ghost sb_i = b@.skip(i as int);
    assert(sa_i.len() == la - i);
    i >= la && i < lb
}

/// `s` ends with `suffix`.
pub open spec fn ends_with(s: Seq<char>, suffix: Seq<char>) -> bool {
    s.len() >= suffix.len() && s.subrange(s.len() - suffix.len(), s.len() as int) == suffix
}

/// `s` without its last `n` characters.
pub open spec fn drop_end(s: Seq<char>, n: nat) -> Seq<char> {
    s.subrange(0, s.len() - n)
}

/// `s` without `suffix` when it ends with it, as `str::strip_suffix` gives it.
pub fn strip_suffix(s: &str, suffix: &str) -> (r: Option<String>)
    ensures
        match r {
            Some(p) => ends_with(s@, suffix@) && p@ == drop_end(s@, suffix@.len()),
            None => !ends_with(s@, suffix@),
        },
{
    let n = s.unicode_len();
    let m = suffix.unicode_len();
    if m > n {
        return None;
    }
    let start = n - m;
    let mut i: usize = 0;
    while i < m
        invariant
            n == s@.len(),
            m == suffix@.len(),
            start == n - m,
            i <= m,
            forall|j: int| 0 <= j < i ==> s@[start + j] == suffix@[j],
        decreases m - i,
    {
        if s.get_char(start + i) != suffix.get_char(i) {
            assert(s@.subrange(start as int, n as int)[i as int] != suffix@[i as int]);
            return None;
        }
        i = i + 1;
    }
    assert(s@.subrange(start as int, n as int) =~= suffix@);
    Some(s.substring_char(0, start).to_owned())
}

/// The parameter at `idx`, or nothing when there are fewer.
pub open spec fn param_or_empty(params: Seq<String>, idx: int) -> Seq<char> {
    if 0 <= idx < params.len() {
        params[idx]@
    } else {
        Seq::empty()
    }
}

/// `s` with each `{}`, read left to right, replaced by the next parameter
/// (counting from `idx`), and one more parameter appended at the end if any is
/// left; a `{}` with no parameter left reads as nothing.
pub open spec fn filled(s: Seq<char>, params: Seq<String>, idx: int) -> Seq<char>
    decreases s.len(),
{
    if s.len() == 0 {
        param_or_empty(params, idx)
    } else if s.len() >= 2 && s[0] == '{' && s[1] == '}' {
        param_or_empty(params, idx) + filled(s.skip(2), params, idx + 1)
    } else {
        seq![s[0]] + filled(s.skip(1), params, idx)
    }
}

/// Fills the placeholders `{}` of a script's format string with the string forms
/// of the values after it.
pub fn fill_placeholders(format: &str, params: &Vec<String>) -> (r: String)
    ensures
        r@ == filled(format@, params@, 0),
{
    let n = format.unicode_len();
    let mut out = String::new();
    let mut i: usize = 0;
    let mut idx: usize = 0;
    assert(format@.skip(0) =~= format@);
    assert(out@ + filled(format@.skip(0), params@, 0) =~= filled(format@, params@, 0));
    while i < n
        invariant
            n == format@.len(),
            i <= n,
            idx <= i,
            out@ + filled(format@.skip(i as int), params@, idx as int) == filled(format@, params@, 0),
        decreases n - i,
    {
        let ghost rest = format@.skip(i as int);
        let ghost before = out@;
        assert(rest[0] == format@[i as int]);
        if i + 1 < n && format.get_char(i) == '{' && format.get_char(i + 1) == '}' {
            assert(rest[1] == format@[i + 1]);
            if idx < params.len() {
                out.append(params[idx].as_str());
            }
            assert(out@ == before + param_or_empty(params@, idx as int));
            assert(rest.skip(2) =~= format@.skip(i + 2));
            idx = idx + 1;
            i = i + 2;
            assert(out@ + filled(format@.skip(i as int), params@, idx as int) =~= before + filled(
                rest,
                params@,
                idx - 1,
            ));
        } else {
            let one = format.substring_char(i, i + 1);
            out.append(one);
            assert(one@ =~= seq![rest[0]]);
            assert(rest.skip(1) =~= format@.skip(i + 1));
            i = i + 1;
            assert(out@ + filled(format@.skip(i as int), params@, idx as int) =~= before + filled(
                rest,
                params@,
                idx as int,
            ));
        }
    }
    assert(format@.skip(n as int).len() == 0);
    let ghost before = out@;
    if idx < params.len() {
        out.append(params[idx].as_str());
    }
    assert(out@ =~= before + filled(format@.skip(n as int), params@, idx as int));
    out
}

} // verus!
