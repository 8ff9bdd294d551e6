//! Character-sequence utilities: searching, splitting, joining, trimming,
//! case folding and lexicographic order, with their mathematical models.

use vstd::prelude::*;
use vstd::string::*;

verus! {

// --- searching ---
/// Index of the first occurrence of `c` in `s`, if any.
pub open spec fn find_char(s: Seq<char>, c: char) -> Option<int>
    decreases s.len(),
{
    if s.len() == 0 {
        None
    } else if s[0] == c {
        Some(0int)
    } else {
        match find_char(s.drop_first(), c) {
            None => None,
            Some(i) => Some(i + 1),
        }
    }
}

/// Index of the last occurrence of `c` in `s`, if any.
pub open spec fn rfind_char(s: Seq<char>, c: char) -> Option<int>
    decreases s.len(),
{
    if s.len() == 0 {
        None
    } else if s[s.len() - 1] == c {
        Some(s.len() - 1)
    } else {
        rfind_char(s.drop_last(), c)
    }
}

/// `find_char` returns the first occurrence, or `None` when there is none.
pub proof fn lemma_find_char(s: Seq<char>, c: char)
    ensures
        match find_char(s, c) {
            Some(i) => 0 <= i < s.len() && s[i] == c && (forall|j: int| 0 <= j < i ==> s[j] != c),
            None => forall|j: int| 0 <= j < s.len() ==> s[j] != c,
        },
    decreases s.len(),
{
    if s.len() > 0 && s[0] != c {
        lemma_find_char(s.drop_first(), c);
        match find_char(s.drop_first(), c) {
            Some(k) => {
                assert(s[k + 1] == s.drop_first()[k]);
                assert forall|j: int| 0 <= j < k + 1 implies s[j] != c by {
                    if j > 0 {
                        assert(s[j] == s.drop_first()[j - 1]);
                    }
                }
            },
            None => {
                assert forall|j: int| 0 <= j < s.len() implies s[j] != c by {
                    if j > 0 {
                        assert(s[j] == s.drop_first()[j - 1]);
                    }
                }
            },
        }
    }
}

/// An index with the first-occurrence property determines `find_char`.
pub proof fn lemma_find_char_at(s: Seq<char>, c: char, i: int)
    requires
        0 <= i < s.len(),
        s[i] == c,
        forall|j: int| 0 <= j < i ==> s[j] != c,
    ensures
        find_char(s, c) == Some(i),
    decreases i,
{
    if i > 0 {
        lemma_find_char_at(s.drop_first(), c, i - 1);
    }
}

/// `rfind_char` returns the last occurrence, or `None` when there is none.
pub proof fn lemma_rfind_char(s: Seq<char>, c: char)
    ensures
        match rfind_char(s, c) {
            Some(i) => 0 <= i < s.len() && s[i] == c && (forall|j: int|
                i < j < s.len() ==> s[j] != c),
            None => forall|j: int| 0 <= j < s.len() ==> s[j] != c,
        },
    decreases s.len(),
{
    if s.len() > 0 && s[s.len() - 1] != c {
        lemma_rfind_char(s.drop_last(), c);
        assert(forall|j: int| 0 <= j < s.len() - 1 ==> s.drop_last()[j] == s[j]);
    }
}

/// An index with the last-occurrence property determines `rfind_char`.
pub proof fn lemma_rfind_char_at(s: Seq<char>, c: char, i: int)
    requires
        0 <= i < s.len(),
        s[i] == c,
        forall|j: int| i < j < s.len() ==> s[j] != c,
    ensures
        rfind_char(s, c) == Some(i),
    decreases s.len(),
{
    if i < s.len() - 1 {
        lemma_rfind_char_at(s.drop_last(), c, i);
    }
}

// --- cutting ---
/// Split at the first occurrence of `c`: `(before, after)`; the whole
/// sequence and an empty remainder when `c` does not occur.
pub open spec fn cut_char(s: Seq<char>, c: char) -> (Seq<char>, Seq<char>) {
    match find_char(s, c) {
        None => (s, Seq::empty()),
        Some(i) => (s.take(i), s.skip(i + 1)),
    }
}

/// Split at the last occurrence of `c`: `(before, after)`; an empty prefix
/// and the whole sequence when `c` does not occur.
pub open spec fn rcut_char(s: Seq<char>, c: char) -> (Seq<char>, Seq<char>) {
    match rfind_char(s, c) {
        None => (Seq::empty(), s),
        Some(i) => (s.take(i), s.skip(i + 1)),
    }
}

// --- splitting and joining ---
/// The parts of `s` between occurrences of `c`; always at least one part.
pub open spec fn split_char(s: Seq<char>, c: char) -> Seq<Seq<char>>
    decreases s.len(),
    via split_char_decreases
{
    match find_char(s, c) {
        None => seq![s],
        Some(i) => seq![s.take(i)] + split_char(s.skip(i + 1), c),
    }
}

#[via_fn]
proof fn split_char_decreases(s: Seq<char>, c: char) {
    lemma_find_char(s, c);
}

/// The parts joined with `c` between consecutive parts.
pub open spec fn join_char(parts: Seq<Seq<char>>, c: char) -> Seq<char>
    decreases parts.len(),
{
    if parts.len() == 0 {
        Seq::empty()
    } else if parts.len() == 1 {
        parts[0]
    } else {
        parts[0] + seq![c] + join_char(parts.drop_first(), c)
    }
}

/// The parts joined with a separator sequence between consecutive parts.
pub open spec fn join_with(parts: Seq<Seq<char>>, sep: Seq<char>) -> Seq<char>
    decreases parts.len(),
{
    if parts.len() == 0 {
        Seq::empty()
    } else if parts.len() == 1 {
        parts[0]
    } else {
        parts[0] + sep + join_with(parts.drop_first(), sep)
    }
}

/// Joining one more part appends the separator (unless nothing was joined
/// yet) and the part.
pub proof fn lemma_join_with_push(parts: Seq<Seq<char>>, p: Seq<char>, sep: Seq<char>)
    ensures
        join_with(parts.push(p), sep) == if parts.len() == 0 {
            p
        } else {
            join_with(parts, sep) + sep + p
        },
    decreases parts.len(),
{
    reveal_with_fuel(join_with, 3);
    if parts.len() == 0 {
        assert(parts.push(p)[0] == p);
        assert(join_with(parts.push(p), sep) == p);
    } else if parts.len() == 1 {
        assert(parts.push(p)[0] == parts[0]);
        assert(parts.push(p).drop_first() =~= Seq::<Seq<char>>::empty().push(p));
        assert(Seq::<Seq<char>>::empty().push(p)[0] == p);
        assert(join_with(parts.push(p), sep) == parts[0] + sep + p);
    } else {
        assert(parts.push(p)[0] == parts[0]);
        assert(parts.push(p).drop_first() =~= parts.drop_first().push(p));
        lemma_join_with_push(parts.drop_first(), p, sep);
        assert(join_with(parts.push(p), sep) == parts[0] + sep + (join_with(parts.drop_first(), sep)
            + sep + p));
        assert(join_with(parts, sep) == parts[0] + sep + join_with(parts.drop_first(), sep));
        assert(join_with(parts.push(p), sep) =~= join_with(parts, sep) + sep + p);
    }
}

/// Splitting yields at least one part.
pub proof fn lemma_split_len(s: Seq<char>, c: char)
    ensures
        split_char(s, c).len() >= 1,
{
    match find_char(s, c) {
        None => {},
        Some(_) => {},
    }
}

/// No part of a split holds the separator.
pub proof fn lemma_split_no_sep(s: Seq<char>, c: char)
    ensures
        forall|i: int, j: int|
            0 <= i < split_char(s, c).len() && 0 <= j < split_char(s, c)[i].len()
                ==> #[trigger] split_char(s, c)[i][j] != c,
    decreases s.len(),
{
    lemma_find_char(s, c);
    match find_char(s, c) {
        None => {
            assert(split_char(s, c) == seq![s]);
        },
        Some(i) => {
            lemma_split_no_sep(s.skip(i + 1), c);
            let rest = split_char(s.skip(i + 1), c);
            assert(split_char(s, c) == seq![s.take(i)] + rest);
            assert forall|w: int, j: int|
                0 <= w < split_char(s, c).len() && 0 <= j < split_char(s, c)[w].len() implies #[trigger] split_char(
                s,
                c,
            )[w][j] != c by {
                if w == 0 {
                    assert(split_char(s, c)[0] == s.take(i));
                } else {
                    assert(split_char(s, c)[w] == rest[w - 1]);
                }
            }
        },
    }
}

/// Joining undoes splitting.
pub proof fn lemma_join_split(s: Seq<char>, c: char)
    ensures
        join_char(split_char(s, c), c) == s,
    decreases s.len(),
{
    lemma_find_char(s, c);
    match find_char(s, c) {
        None => {
            assert(split_char(s, c) == seq![s]);
            assert(join_char(seq![s], c) == s);
        },
        Some(i) => {
            lemma_join_split(s.skip(i + 1), c);
            let rest = split_char(s.skip(i + 1), c);
            lemma_split_len(s.skip(i + 1), c);
            let parts = seq![s.take(i)] + rest;
            assert(split_char(s, c) == parts);
            assert(parts.len() >= 2);
            assert(parts[0] == s.take(i));
            assert(parts.drop_first() =~= rest);
            assert(join_char(parts, c) == s.take(i) + seq![c] + join_char(rest, c));
            assert(s.take(i) + seq![c] + s.skip(i + 1) =~= s);
        },
    }
}

/// Splitting undoes joining, for at least one part none of which holds
/// the separator.
pub proof fn lemma_split_join(parts: Seq<Seq<char>>, c: char)
    requires
        parts.len() >= 1,
        forall|i: int, j: int|
            0 <= i < parts.len() && 0 <= j < parts[i].len() ==> #[trigger] parts[i][j] != c,
    ensures
        split_char(join_char(parts, c), c) == parts,
    decreases parts.len(),
{
    if parts.len() == 1 {
        let s = parts[0];
        assert(join_char(parts, c) == s);
        lemma_find_char(s, c);
        if find_char(s, c) is Some {
            let i = find_char(s, c)->Some_0;
            assert(s[i] == c);
            assert(false);
        }
        assert(split_char(s, c) == seq![s]);
        assert(seq![s] =~= parts);
    } else {
        let s = join_char(parts, c);
        let h = parts[0];
        let t = join_char(parts.drop_first(), c);
        assert(s == h + seq![c] + t);
        assert(s[h.len() as int] == c);
        assert forall|j: int| 0 <= j < h.len() implies s[j] != c by {
            assert(s[j] == h[j]);
        }
        lemma_find_char_at(s, c, h.len() as int);
        assert(s.take(h.len() as int) =~= h);
        assert(s.skip(h.len() as int + 1) =~= t);
        assert forall|i: int, j: int|
            0 <= i < parts.drop_first().len() && 0 <= j < parts.drop_first()[i].len() implies #[trigger] parts.drop_first()[i][j]
            != c by {
            assert(parts.drop_first()[i] == parts[i + 1]);
        }
        lemma_split_join(parts.drop_first(), c);
        assert(split_char(s, c) == seq![h] + split_char(t, c));
        assert(seq![h] + parts.drop_first() =~= parts);
    }
}

/// Trimming changes nothing when neither end is the separator.
pub proof fn lemma_trim_noop(s: Seq<char>, c: char)
    requires
        s.len() > 0 ==> (s[0] != c && s[s.len() - 1] != c),
    ensures
        trim_char(s, c) == s,
{
    assert(trim_start_char(s, c) == s);
    assert(trim_end_char(s, c) == s);
}

/// Joining one more part appends a separator (unless nothing was joined
/// yet) and the part.
pub proof fn lemma_join_push(parts: Seq<Seq<char>>, p: Seq<char>, c: char)
    ensures
        join_char(parts.push(p), c) == if parts.len() == 0 {
            p
        } else {
            join_char(parts, c) + seq![c] + p
        },
    decreases parts.len(),
{
    reveal_with_fuel(join_char, 3);
    if parts.len() == 0 {
        assert(parts.push(p)[0] == p);
        assert(join_char(parts.push(p), c) == p);
    } else if parts.len() == 1 {
        assert(parts.push(p)[0] == parts[0]);
        assert(parts.push(p).drop_first() =~= Seq::<Seq<char>>::empty().push(p));
        assert(Seq::<Seq<char>>::empty().push(p)[0] == p);
        assert(join_char(parts.push(p), c) == parts[0] + seq![c] + p);
    } else {
        assert(parts.push(p)[0] == parts[0]);
        assert(parts.push(p).drop_first() =~= parts.drop_first().push(p));
        lemma_join_push(parts.drop_first(), p, c);
        assert(join_char(parts.push(p), c) == parts[0] + seq![c] + (join_char(
            parts.drop_first(),
            c,
        ) + seq![c] + p));
        assert(join_char(parts, c) == parts[0] + seq![c] + join_char(parts.drop_first(), c));
        assert(join_char(parts.push(p), c) =~= join_char(parts, c) + seq![c] + p);
    }
}

// --- trimming ---
/// `s` without its leading copies of `c`.
pub open spec fn trim_start_char(s: Seq<char>, c: char) -> Seq<char>
    decreases s.len(),
{
    if s.len() > 0 && s[0] == c {
        trim_start_char(s.drop_first(), c)
    } else {
        s
    }
}

/// `s` without its trailing copies of `c`.
pub open spec fn trim_end_char(s: Seq<char>, c: char) -> Seq<char>
    decreases s.len(),
{
    if s.len() > 0 && s[s.len() - 1] == c {
        trim_end_char(s.drop_last(), c)
    } else {
        s
    }
}

/// `s` without leading and trailing copies of `c`.
pub open spec fn trim_char(s: Seq<char>, c: char) -> Seq<char> {
    trim_end_char(trim_start_char(s, c), c)
}

proof fn lemma_trim_start_skip(s: Seq<char>, c: char, a: int)
    requires
        0 <= a <= s.len(),
        forall|j: int| 0 <= j < a ==> s[j] == c,
        a < s.len() ==> s[a] != c,
    ensures
        trim_start_char(s, c) == s.skip(a),
    decreases a,
{
    if a == 0 {
        assert(s.skip(0) =~= s);
    } else {
        lemma_trim_start_skip(s.drop_first(), c, a - 1);
        assert(s.drop_first().skip(a - 1) =~= s.skip(a));
    }
}

proof fn lemma_trim_end_take(s: Seq<char>, c: char, b: int)
    requires
        0 <= b <= s.len(),
        forall|j: int| b <= j < s.len() ==> s[j] == c,
        b > 0 ==> s[b - 1] != c,
    ensures
        trim_end_char(s, c) == s.take(b),
    decreases s.len() - b,
{
    if b == s.len() {
        assert(s.take(b) =~= s);
    } else {
        lemma_trim_end_take(s.drop_last(), c, b);
        assert(s.drop_last().take(b) =~= s.take(b));
    }
}

// --- case folding and replacement ---
/// ASCII lowercase of one character; other characters are unchanged.
pub open spec fn lower_char(c: char) -> char {
    if ('A' as u32) <= (c as u32) && (c as u32) <= ('Z' as u32) {
        (((c as u32 + 32) as u32) as char)
    } else {
        c
    }
}

/// ASCII lowercase of a character sequence.
pub open spec fn lower_chars(s: Seq<char>) -> Seq<char> {
    s.map(|_i: int, c: char| lower_char(c))
}

/// Every `from` replaced by `to`.
pub open spec fn replace_char(s: Seq<char>, from: char, to: char) -> Seq<char> {
    s.map(
        |_i: int, c: char|
            if c == from {
                to
            } else {
                c
            },
    )
}

// --- lexicographic order ---
/// Strict lexicographic order on character sequences, by scalar value,
/// a proper prefix ordered first.
pub open spec fn lex_lt(a: Seq<char>, b: Seq<char>) -> bool
    decreases a.len(),
{
    if b.len() == 0 {
        false
    } else if a.len() == 0 {
        true
    } else if (a[0] as u32) < (b[0] as u32) {
        true
    } else if a[0] == b[0] {
        lex_lt(a.drop_first(), b.drop_first())
    } else {
        false
    }
}

/// Of two sequences, exactly one of: less, equal, greater.
pub proof fn lemma_lex_lt_total(a: Seq<char>, b: Seq<char>)
    ensures
        lex_lt(a, b) || lex_lt(b, a) || a == b,
        lex_lt(a, b) ==> !lex_lt(b, a) && a != b,
        lex_lt(b, a) ==> !lex_lt(a, b) && a != b,
    decreases a.len(),
{
    if a.len() > 0 && b.len() > 0 {
        vstd::utf8::char_u32_cast(a[0], a[0] as u32);
        vstd::utf8::char_u32_cast(b[0], b[0] as u32);
        if a[0] == b[0] {
            lemma_lex_lt_total(a.drop_first(), b.drop_first());
            if a.drop_first() == b.drop_first() {
                assert forall|i: int| 0 <= i < a.len() implies a[i] == b[i] by {
                    if i > 0 {
                        assert(a[i] == a.drop_first()[i - 1]);
                        assert(b[i] == b.drop_first()[i - 1]);
                    }
                }
                assert(a =~= b);
            }
            if a == b {
                assert(a.drop_first() =~= b.drop_first());
            }
        }
    } else {
        if a.len() == 0 && b.len() == 0 {
            assert(a =~= b);
        }
    }
}

/// Lexicographic order is transitive.
pub proof fn lemma_lex_lt_trans(a: Seq<char>, b: Seq<char>, d: Seq<char>)
    requires
        lex_lt(a, b),
        lex_lt(b, d),
    ensures
        lex_lt(a, d),
    decreases a.len(),
{
    if a.len() > 0 && b.len() > 0 && d.len() > 0 {
        vstd::utf8::char_u32_cast(a[0], a[0] as u32);
        vstd::utf8::char_u32_cast(b[0], b[0] as u32);
        vstd::utf8::char_u32_cast(d[0], d[0] as u32);
        if a[0] == b[0] && b[0] == d[0] {
            lemma_lex_lt_trans(a.drop_first(), b.drop_first(), d.drop_first());
        }
    }
}

// --- executable counterparts ---
/// First occurrence of `c` in `s`, as a character index.
pub(crate) fn find_in(s: &str, c: char) -> (r: Option<usize>)
    ensures
        match r {
            Some(i) => find_char(s@, c) == Some(i as int),
            None => find_char(s@, c) is None,
        },
{
    let n = s.unicode_len();
    let mut i: usize = 0;
    while i < n
        invariant
            n == s@.len(),
            0 <= i <= n,
            forall|j: int| 0 <= j < i ==> s@[j] != c,
        decreases n - i,
    {
        if s.get_char(i) == c {
            proof {
                lemma_find_char_at(s@, c, i as int);
            }
            return Some(i);
        }
        i += 1;
    }
    proof {
        lemma_find_char(s@, c);
    }
    None
}

/// Last occurrence of `c` in `s`, as a character index.
pub(crate) fn rfind_in(s: &str, c: char) -> (r: Option<usize>)
    ensures
        match r {
            Some(i) => rfind_char(s@, c) == Some(i as int),
            None => rfind_char(s@, c) is None,
        },
{
    let n = s.unicode_len();
    let mut i: usize = n;
    while i > 0
        invariant
            n == s@.len(),
            0 <= i <= n,
            forall|j: int| i <= j < n ==> s@[j] != c,
        decreases i,
    {
        i -= 1;
        if s.get_char(i) == c {
            proof {
                lemma_rfind_char_at(s@, c, i as int);
            }
            return Some(i);
        }
    }
    proof {
        lemma_rfind_char(s@, c);
    }
    None
}

/// Character-wise equality of two string slices.
pub(crate) fn eq_str(a: &str, b: &str) -> (r: bool)
    ensures
        r == (a@ == b@),
{
    let an = a.unicode_len();
    let bn = b.unicode_len();
    if an != bn {
        return false;
    }
    let mut i: usize = 0;
    while i < an
        invariant
            an == a@.len(),
            an == b@.len(),
            0 <= i <= an,
            forall|j: int| 0 <= j < i ==> a@[j] == b@[j],
        decreases an - i,
    {
        if a.get_char(i) != b.get_char(i) {
            return false;
        }
        i += 1;
    }
    proof {
        assert(a@ =~= b@);
    }
    true
}

/// Relies on `String::push`, which appends the given character.
#[verifier::external_body]
pub(crate) fn push_char(s: &mut String, c: char)
    ensures
        final(s)@ == old(s)@.push(c),
{
    s.push(c);
}

/// ASCII lowercase of one character.
pub(crate) fn char_to_lower(c: char) -> (r: char)
    ensures
        r == lower_char(c),
{
    let u = c as u32;
    if 65 <= u && u <= 90 {
        let l = (u + 32) as u8;
        l as char
    } else {
        c
    }
}

/// ASCII lowercase of a string.
pub(crate) fn to_lower(s: &str) -> (r: String)
    ensures
        r@ == lower_chars(s@),
{
    let n = s.unicode_len();
    let mut out = String::new();
    let mut i: usize = 0;
    while i < n
        invariant
            n == s@.len(),
            0 <= i <= n,
            out@ == lower_chars(s@.take(i as int)),
        decreases n - i,
    {
        let c = char_to_lower(s.get_char(i));
        push_char(&mut out, c);
        proof {
            assert(s@.take(i + 1).drop_last() =~= s@.take(i as int));
            assert(lower_chars(s@.take(i + 1)) =~= lower_chars(s@.take(i as int)).push(
                lower_char(s@[i as int]),
            ));
        }
        i += 1;
    }
    proof {
        assert(s@.take(n as int) =~= s@);
    }
    out
}

/// Strict lexicographic comparison of two string slices.
pub(crate) fn str_lt(a: &str, b: &str) -> (r: bool)
    ensures
        r == lex_lt(a@, b@),
{
    let an = a.unicode_len();
    let bn = b.unicode_len();
    let mut i: usize = 0;
    proof {
        assert(a@.skip(0) =~= a@);
        assert(b@.skip(0) =~= b@);
    }
    loop
        invariant
            an == a@.len(),
            bn == b@.len(),
            0 <= i <= an,
            0 <= i <= bn,
            forall|j: int| 0 <= j < i ==> a@[j] == b@[j],
            lex_lt(a@, b@) == lex_lt(a@.skip(i as int), b@.skip(i as int)),
        decreases an - i,
    {
        if i == bn {
            // b exhausted: not less, whether or not a continues
            return false;
        }
        if i == an {
            // a is a proper prefix of b
            return true;
        }
        let ac = a.get_char(i);
        let bc = b.get_char(i);
        let au = ac as u32;
        let bu = bc as u32;
        if au < bu {
            return true;
        }
        if au > bu {
            proof {
                vstd::utf8::char_u32_cast(a@[i as int], au);
                vstd::utf8::char_u32_cast(b@[i as int], bu);
            }
            return false;
        }
        proof {
            vstd::utf8::char_u32_cast(a@[i as int], au);
            vstd::utf8::char_u32_cast(b@[i as int], bu);
            assert(a@.skip(i as int).drop_first() =~= a@.skip(i + 1));
            assert(b@.skip(i as int).drop_first() =~= b@.skip(i + 1));
        }
        i += 1;
    }
}

/// `s` without its leading copies of `c`.
pub(crate) fn trim_start_matching(s: &str, c: char) -> (r: &str)
    ensures
        r@ == trim_start_char(s@, c),
{
    let n = s.unicode_len();
    let mut a: usize = 0;
    while a < n && s.get_char(a) == c
        invariant
            n == s@.len(),
            0 <= a <= n,
            forall|j: int| 0 <= j < a ==> s@[j] == c,
        decreases n - a,
    {
        a += 1;
    }
    proof {
        lemma_trim_start_skip(s@, c, a as int);
    }
    let r = s.substring_char(a, n);
    proof {
        assert(s@.skip(a as int) =~= s@.subrange(a as int, n as int));
    }
    r
}

/// `s` without leading and trailing copies of `c`.
pub(crate) fn trim_matching(s: &str, c: char) -> (r: &str)
    ensures
        r@ == trim_char(s@, c),
{
    let n = s.unicode_len();
    let mut a: usize = 0;
    while a < n && s.get_char(a) == c
        invariant
            n == s@.len(),
            0 <= a <= n,
            forall|j: int| 0 <= j < a ==> s@[j] == c,
        decreases n - a,
    {
        a += 1;
    }
    proof {
        lemma_trim_start_skip(s@, c, a as int);
    }
    if a == n {
        let r = s.substring_char(n, n);
        proof {
            assert(s@.skip(n as int) =~= s@.subrange(n as int, n as int));
            assert(r@.len() == 0);
        }
        return r;
    }
    let mut b: usize = n;
    while b > a && s.get_char(b - 1) == c
        invariant
            n == s@.len(),
            a <= b <= n,
            a < n,
            s@[a as int] != c,
            forall|j: int| b <= j < n ==> s@[j] == c,
        decreases b,
    {
        b -= 1;
    }
    // b > a here: s[a] != c so the scan stops at or after a + 1
    let r = s.substring_char(a, b);
    proof {
        let t = s@.skip(a as int);
        assert(b > a);
        assert(forall|j: int| (b - a) <= j < t.len() ==> t[j] == c);
        assert(t[(b - a) - 1] == s@[b - 1]);
        lemma_trim_end_take(t, c, b - a as int);
        assert(t.take(b - a as int) =~= s@.subrange(a as int, b as int));
    }
    r
}

} // verus!
