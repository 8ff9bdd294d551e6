//! The component decomposer: each operation takes the still-unconsumed
//! remainder of a purl string and strips one syntactic component, decoding
//! and validating it. Suffix components (`#subpath`, `?qualifiers`,
//! `@version`) are cut at the last occurrence of their marker; the prefix
//! (`scheme:`, `type/`) at the first.

use crate::codec::{pd, percent_decode};
use crate::errors::{ErrKind, Error};
use crate::strutil::{cut_char, find_char, find_in, join_char, lemma_find_char, lemma_join_push,
    lemma_rfind_char, lower_chars, push_char, rcut_char, rfind_char, rfind_in, split_char,
    to_lower, trim_char, trim_matching, trim_start_char, trim_start_matching};
use crate::utils::{cut, rcut};
use crate::validation::{is_namespace_component_valid, is_qualifier_key_valid,
    is_subpath_segment_valid, is_type_valid, spec_is_dot, spec_is_dotdot,
    spec_valid_namespace_component, spec_valid_subpath_segment, spec_valid_key, spec_valid_type};
use vstd::prelude::*;
use vstd::string::*;

verus! {

/// The canonical scheme token.
pub open spec fn pkg_chars() -> Seq<char> {
    seq!['p', 'k', 'g']
}

/// A raw segment that survives pre-filtering: non-empty and neither `.`
/// nor `..`.
pub open spec fn keep_segment(seg: Seq<char>) -> bool {
    seg.len() > 0 && !spec_is_dot(seg) && !spec_is_dotdot(seg)
}

/// The segments that survive pre-filtering, in order.
pub open spec fn kept_segments(segs: Seq<Seq<char>>) -> Seq<Seq<char>>
    decreases segs.len(),
{
    if segs.len() == 0 {
        Seq::empty()
    } else if keep_segment(segs[0]) {
        seq![segs[0]] + kept_segments(segs.drop_first())
    } else {
        kept_segments(segs.drop_first())
    }
}

pub proof fn lemma_kept_concat(a: Seq<Seq<char>>, b: Seq<Seq<char>>)
    ensures
        kept_segments(a + b) == kept_segments(a) + kept_segments(b),
    decreases a.len(),
{
    reveal_with_fuel(kept_segments, 2);
    if a.len() == 0 {
        assert(a + b =~= b);
        assert(kept_segments(a) + kept_segments(b) =~= kept_segments(b));
    } else {
        assert((a + b)[0] == a[0]);
        assert((a + b).len() > 0);
        assert((a + b).drop_first() =~= a.drop_first() + b);
        lemma_kept_concat(a.drop_first(), b);
        if keep_segment(a[0]) {
            assert(kept_segments(a + b) =~= kept_segments(a) + kept_segments(b));
        } else {
            assert(kept_segments(a + b) =~= kept_segments(a) + kept_segments(b));
        }
    }
}

/// Validity rule for a decoded segment, by component.
pub open spec fn seg_ok(d: Seq<char>, subpath: bool) -> bool {
    if subpath {
        spec_valid_subpath_segment(d)
    } else {
        spec_valid_namespace_component(d)
    }
}

/// The error a failing decoded segment raises, by component.
pub open spec fn seg_err(d: Seq<char>, subpath: bool) -> ErrKind {
    if subpath {
        ErrKind::InvalidSubpathSegment(d)
    } else {
        ErrKind::InvalidNamespaceComponent(d)
    }
}

/// Decode and validate segments left to right; the first failure stops
/// the whole operation.
pub open spec fn spec_decode_segs(segs: Seq<Seq<char>>, subpath: bool) -> Result<
    Seq<Seq<char>>,
    ErrKind,
>
    decreases segs.len(),
{
    if segs.len() == 0 {
        Ok(Seq::empty())
    } else {
        match pd(segs[0]) {
            None => Err(ErrKind::Decoding),
            Some(d) => if !seg_ok(d, subpath) {
                Err(seg_err(d, subpath))
            } else {
                match spec_decode_segs(segs.drop_first(), subpath) {
                    Ok(rest) => Ok(seq![d] + rest),
                    Err(e) => Err(e),
                }
            },
        }
    }
}

proof fn lemma_decode_segs_concat(a: Seq<Seq<char>>, b: Seq<Seq<char>>, subpath: bool)
    ensures
        match spec_decode_segs(a, subpath) {
            Err(e) => spec_decode_segs(a + b, subpath) == Err::<Seq<Seq<char>>, ErrKind>(e),
            Ok(da) => spec_decode_segs(a + b, subpath) == (match spec_decode_segs(b, subpath) {
                Ok(db) => Ok::<Seq<Seq<char>>, ErrKind>(da + db),
                Err(e) => Err(e),
            }),
        },
    decreases a.len(),
{
    if a.len() == 0 {
        assert(a + b =~= b);
        assert(spec_decode_segs(a, subpath) == Ok::<Seq<Seq<char>>, ErrKind>(Seq::empty()));
        match spec_decode_segs(b, subpath) {
            Ok(db) => {
                assert(Seq::<Seq<char>>::empty() + db =~= db);
            },
            Err(_) => {
            },
        }
    } else {
        assert((a + b)[0] == a[0]);
        assert((a + b).len() > 0);
        assert((a + b).drop_first() =~= a.drop_first() + b);
        lemma_decode_segs_concat(a.drop_first(), b, subpath);
        match pd(a[0]) {
            None => {
            },
            Some(d) => {
                if seg_ok(d, subpath) {
                    match spec_decode_segs(a.drop_first(), subpath) {
                        Ok(dr) => {
                            match spec_decode_segs(b, subpath) {
                                Ok(db) => {
                                    assert(seq![d] + (dr + db) =~= (seq![d] + dr) + db);
                                },
                                Err(_) => {
                                },
                            }
                        },
                        Err(_) => {
                        },
                    }
                }
            },
        }
    }
}

/// What trimming, splitting on `/`, pre-filtering, decoding, validating
/// and re-joining a raw path component yields.
pub open spec fn spec_decode_component(raw: Seq<char>, subpath: bool) -> Result<Seq<char>, ErrKind> {
    match spec_decode_segs(kept_segments(split_char(trim_char(raw, '/'), '/')), subpath) {
        Ok(ds) => Ok(join_char(ds, '/')),
        Err(e) => Err(e),
    }
}

pub(crate) fn is_kept(seg: &str) -> (r: bool)
    ensures
        r == keep_segment(seg@),
{
    let n = seg.unicode_len();
    if n == 0 {
        return false;
    }
    if n == 1 && seg.get_char(0) == '.' {
        return false;
    }
    if n == 2 && seg.get_char(0) == '.' && seg.get_char(1) == '.' {
        return false;
    }
    true
}

/// Trim, split on `/`, drop empty and dot segments, percent-decode and
/// validate each, and join with `/`.
fn decode_component(raw: &str, subpath: bool) -> (r: Result<String, Error>)
    ensures
        match spec_decode_component(raw@, subpath) {
            Ok(t) => r matches Ok(s) && s@ == t,
            Err(e) => r matches Err(er) && er@ == e,
        },
{
    let trimmed = trim_matching(raw, '/');
    let mut rem: &str = trimmed;
    let mut out = String::new();
    let mut any = false;
    let ghost mut processed: Seq<Seq<char>> = Seq::empty();
    let ghost mut decoded: Seq<Seq<char>> = Seq::empty();
    proof {
        reveal_with_fuel(spec_decode_segs, 2);
        reveal_with_fuel(kept_segments, 2);
        reveal_with_fuel(join_char, 2);
        assert(split_char(trimmed@, '/') =~= processed + split_char(rem@, '/'));
        assert(kept_segments(processed) =~= Seq::<Seq<char>>::empty());
    }
    loop
        invariant
            trimmed@ == trim_char(raw@, '/'),
            split_char(trimmed@, '/') == processed + split_char(rem@, '/'),
            spec_decode_segs(kept_segments(processed), subpath) == Ok::<Seq<Seq<char>>, ErrKind>(
                decoded,
            ),
            out@ == join_char(decoded, '/'),
            any == (decoded.len() > 0),
        decreases rem@.len(),
    {
        let n = rem.unicode_len();
        let fopt = find_in(rem, '/');
        let j_end: usize = match fopt {
            Some(j) => {
                proof {
                    lemma_find_char(rem@, '/');
                }
                j
            },
            None => n,
        };
        let seg = rem.substring_char(0, j_end);
        let ghost tail: Seq<Seq<char>> = match fopt {
            Some(j) => split_char(rem@.skip(j + 1), '/'),
            None => Seq::empty(),
        };
        proof {
            match fopt {
                Some(j) => {
                    assert(seg@ =~= rem@.take(j as int));
                    assert(split_char(rem@, '/') == seq![seg@] + tail);
                },
                None => {
                    lemma_find_char(rem@, '/');
                    assert(seg@ =~= rem@);
                    assert(split_char(rem@, '/') == seq![rem@]);
                    assert(split_char(rem@, '/') =~= seq![seg@] + tail);
                },
            }
            assert(trim_char(raw@, '/') == trimmed@);
            // the whole split decomposed around the current segment
            assert(split_char(trimmed@, '/') =~= (processed + seq![seg@]) + tail);
            lemma_kept_concat(processed, seq![seg@]);
            lemma_kept_concat(processed + seq![seg@], tail);
            assert(processed.push(seg@) =~= processed + seq![seg@]);
        }
        if is_kept(seg) {
            proof {
                reveal_with_fuel(kept_segments, 2);
                assert(seq![seg@].drop_first() =~= Seq::<Seq<char>>::empty());
                assert(seq![seg@] + Seq::<Seq<char>>::empty() =~= seq![seg@]);
                assert(kept_segments(seq![seg@]) =~= seq![seg@]);
            }
            match percent_decode(seg) {
                None => {
                    proof {
                        lemma_kept_concat(seq![seg@], tail);
                        let b = kept_segments(seq![seg@] + tail);
                        assert(b =~= seq![seg@] + kept_segments(tail));
                        assert(b[0] == seg@ && b.len() > 0);
                        assert(spec_decode_segs(b, subpath) == Err::<Seq<Seq<char>>, ErrKind>(
                            ErrKind::Decoding,
                        ));
                        lemma_kept_concat(processed, seq![seg@] + tail);
                        lemma_decode_segs_concat(kept_segments(processed), b, subpath);
                        assert(processed + (seq![seg@] + tail) =~= (processed + seq![seg@]) + tail);
                    }
                    return Err(Error::DecodingError);
                },
                Some(d) => {
                    let valid = if subpath {
                        is_subpath_segment_valid(d.as_str())
                    } else {
                        is_namespace_component_valid(d.as_str())
                    };
                    if !valid {
                        proof {
                            lemma_kept_concat(seq![seg@], tail);
                            let b = kept_segments(seq![seg@] + tail);
                            assert(b =~= seq![seg@] + kept_segments(tail));
                            assert(b[0] == seg@ && b.len() > 0);
                            assert(spec_decode_segs(b, subpath) == Err::<Seq<Seq<char>>, ErrKind>(
                                seg_err(d@, subpath),
                            ));
                            lemma_kept_concat(processed, seq![seg@] + tail);
                            lemma_decode_segs_concat(kept_segments(processed), b, subpath);
                            assert(processed + (seq![seg@] + tail) =~= (processed + seq![seg@])
                                + tail);
                        }
                        return Err(
                            if subpath {
                                Error::InvalidSubpathSegment(d)
                            } else {
                                Error::InvalidNamespaceComponent(d)
                            },
                        );
                    }
                    if any {
                        push_char(&mut out, '/');
                    }
                    out.append(d.as_str());
                    proof {
                        reveal_with_fuel(spec_decode_segs, 2);
                        let b = seq![seg@];
                        assert(b.drop_first() =~= Seq::<Seq<char>>::empty());
                        assert(seq![d@] + Seq::<Seq<char>>::empty() =~= seq![d@]);
                        assert(spec_decode_segs(b, subpath) == Ok::<Seq<Seq<char>>, ErrKind>(
                            seq![d@],
                        ));
                        lemma_decode_segs_concat(kept_segments(processed), b, subpath);
                        assert(kept_segments(processed + seq![seg@]) =~= kept_segments(processed)
                            + b);
                        lemma_join_push(decoded, d@, '/');
                        assert(decoded + seq![d@] =~= decoded.push(d@));
                        if decoded.len() > 0 {
                            assert(out@ =~= join_char(decoded.push(d@), '/'));
                        } else {
                            assert(join_char(decoded, '/') =~= Seq::<char>::empty());
                            assert(out@ =~= join_char(decoded.push(d@), '/'));
                        }
                        decoded = decoded.push(d@);
                        processed = processed.push(seg@);
                    }
                    any = true;
                },
            }
        } else {
            proof {
                reveal_with_fuel(kept_segments, 2);
                assert(seq![seg@].drop_first() =~= Seq::<Seq<char>>::empty());
                assert(kept_segments(seq![seg@]) =~= Seq::<Seq<char>>::empty());
                assert(kept_segments(processed + seq![seg@]) =~= kept_segments(processed));
                processed = processed.push(seg@);
            }
        }
        match fopt {
            Some(j) => {
                let next = rem.substring_char(j + 1, n);
                proof {
                    assert(next@ =~= rem@.skip(j + 1));
                    assert(split_char(trimmed@, '/') =~= processed + split_char(next@, '/'));
                }
                rem = next;
            },
            None => {
                proof {
                    assert(split_char(trimmed@, '/') =~= processed);
                }
                return Ok(out);
            },
        }
    }
}

// --- the seven decomposition steps ---
/// Model of scheme parsing: the token before the first `:` must read
/// `pkg` case-insensitively; every `/` directly after the `:` is skipped.
pub open spec fn spec_parse_scheme(s: Seq<char>) -> Result<Seq<char>, ErrKind> {
    match find_char(s, ':') {
        None => Err(ErrKind::MissingScheme),
        Some(i) => {
            let tok = s.take(i);
            if lower_chars(tok) == pkg_chars() {
                Ok(trim_start_char(s.skip(i + 1), '/'))
            } else {
                Err(ErrKind::InvalidScheme(tok))
            }
        },
    }
}

/// Strip and validate the scheme; the returned string is the canonical
/// scheme token `pkg`.
pub fn parse_scheme(input: &str) -> (r: Result<(&str, String), Error>)
    ensures
        match spec_parse_scheme(input@) {
            Ok(rem) => r matches Ok(p) && p.0@ == rem && p.1@ == pkg_chars(),
            Err(e) => r matches Err(er) && er@ == e,
        },
{
    let n = input.unicode_len();
    match find_in(input, ':') {
        None => Err(Error::MissingScheme),
        Some(i) => {
            proof {
                lemma_find_char(input@, ':');
            }
            let tok = input.substring_char(0, i);
            let low = to_lower(tok);
            proof {
                reveal_strlit("pkg");
                assert("pkg"@ =~= pkg_chars());
            }
            if eq_low_pkg(low.as_str()) {
                let after = input.substring_char(i + 1, n);
                let rem = trim_start_matching(after, '/');
                proof {
                    assert(after@ =~= input@.skip(i + 1));
                }
                Ok((rem, String::from_str("pkg")))
            } else {
                Err(Error::InvalidScheme(String::from_str(tok)))
            }
        },
    }
}

fn eq_low_pkg(low: &str) -> (r: bool)
    ensures
        r == (low@ == pkg_chars()),
{
    let n = low.unicode_len();
    if n != 3 {
        return false;
    }
    let r = low.get_char(0) == 'p' && low.get_char(1) == 'k' && low.get_char(2) == 'g';
    proof {
        if r {
            assert(low@ =~= pkg_chars());
        }
    }
    r
}

/// Model of subpath parsing: everything after the last `#` is the
/// subpath, trimmed, split on `/`, filtered, decoded and re-joined.
pub open spec fn spec_parse_subpath(s: Seq<char>) -> Result<
    (Seq<char>, Option<Seq<char>>),
    ErrKind,
> {
    match rfind_char(s, '#') {
        None => Ok((s, None)),
        Some(i) => match spec_decode_component(s.skip(i + 1), true) {
            Ok(sp) => Ok((s.take(i), Some(sp))),
            Err(e) => Err(e),
        },
    }
}

/// Strip the subpath, if a `#` marks one.
pub fn parse_subpath(input: &str) -> (r: Result<(&str, Option<String>), Error>)
    ensures
        match spec_parse_subpath(input@) {
            Ok(pair) => r matches Ok(p) && p.0@ == pair.0 && p.1.deep_view() == pair.1,
            Err(e) => r matches Err(er) && er@ == e,
        },
{
    let n = input.unicode_len();
    match rfind_in(input, '#') {
        None => Ok((input, None)),
        Some(i) => {
            proof {
                lemma_rfind_char(input@, '#');
            }
            let tail_str = input.substring_char(i + 1, n);
            proof {
                assert(tail_str@ =~= input@.skip(i + 1));
            }
            match decode_component(tail_str, true) {
                Ok(sp) => Ok((input.substring_char(0, i), Some(sp))),
                Err(e) => Err(e),
            }
        },
    }
}

/// Model of namespace parsing: the whole remainder, trimmed, split on
/// `/`, filtered, decoded and re-joined; an empty remainder means no
/// namespace.
pub open spec fn spec_parse_namespace(s: Seq<char>) -> Result<
    (Seq<char>, Option<Seq<char>>),
    ErrKind,
> {
    if s.len() == 0 {
        Ok((Seq::empty(), None))
    } else {
        match spec_decode_component(s, false) {
            Ok(ns) => Ok((Seq::empty(), Some(ns))),
            Err(e) => Err(e),
        }
    }
}

/// Decode the namespace from what remains before the name.
pub fn parse_namespace(input: &str) -> (r: Result<(&str, Option<String>), Error>)
    ensures
        match spec_parse_namespace(input@) {
            Ok(pair) => r matches Ok(p) && p.0@ == pair.0 && p.1.deep_view() == pair.1,
            Err(e) => r matches Err(er) && er@ == e,
        },
{
    let n = input.unicode_len();
    if n == 0 {
        return Ok((input, None));
    }
    let empty_rest = input.substring_char(0, 0);
    proof {
        assert(empty_rest@ =~= Seq::<char>::empty());
    }
    match decode_component(input, false) {
        Ok(ns) => Ok((empty_rest, Some(ns))),
        Err(e) => Err(e),
    }
}

/// Model of version parsing: everything after the last `@`,
/// percent-decoded.
pub open spec fn spec_parse_version(s: Seq<char>) -> Result<
    (Seq<char>, Option<Seq<char>>),
    ErrKind,
> {
    match rfind_char(s, '@') {
        None => Ok((s, None)),
        Some(i) => match pd(s.skip(i + 1)) {
            None => Err(ErrKind::Decoding),
            Some(v) => Ok((s.take(i), Some(v))),
        },
    }
}

/// Strip the version, if an `@` marks one.
pub fn parse_version(input: &str) -> (r: Result<(&str, Option<String>), Error>)
    ensures
        match spec_parse_version(input@) {
            Ok(pair) => r matches Ok(p) && p.0@ == pair.0 && p.1.deep_view() == pair.1,
            Err(e) => r matches Err(er) && er@ == e,
        },
{
    let n = input.unicode_len();
    match rfind_in(input, '@') {
        None => Ok((input, None)),
        Some(i) => {
            proof {
                lemma_rfind_char(input@, '@');
            }
            let tail_str = input.substring_char(i + 1, n);
            proof {
                assert(tail_str@ =~= input@.skip(i + 1));
            }
            match percent_decode(tail_str) {
                None => Err(Error::DecodingError),
                Some(v) => Ok((input.substring_char(0, i), Some(v))),
            }
        },
    }
}

/// Model of type parsing: the prefix before the first `/`, validated
/// against the type grammar and lowercased.
pub open spec fn spec_parse_type(s: Seq<char>) -> Result<(Seq<char>, Seq<char>), ErrKind> {
    match find_char(s, '/') {
        None => Err(ErrKind::MissingType),
        Some(i) => {
            let t = s.take(i);
            if spec_valid_type(t) {
                Ok((s.skip(i + 1), lower_chars(t)))
            } else {
                Err(ErrKind::InvalidType(t))
            }
        },
    }
}

/// Strip and normalize the type.
pub fn parse_type(input: &str) -> (r: Result<(&str, String), Error>)
    ensures
        match spec_parse_type(input@) {
            Ok(pair) => r matches Ok(p) && p.0@ == pair.0 && p.1@ == pair.1,
            Err(e) => r matches Err(er) && er@ == e,
        },
{
    let n = input.unicode_len();
    match find_in(input, '/') {
        None => Err(Error::MissingType),
        Some(i) => {
            proof {
                lemma_find_char(input@, '/');
            }
            let t = input.substring_char(0, i);
            if is_type_valid(t) {
                Ok((input.substring_char(i + 1, n), to_lower(t)))
            } else {
                Err(Error::InvalidType(String::from_str(t)))
            }
        },
    }
}

/// Model of name parsing: trim `/`, take everything after the last `/`,
/// and percent-decode it; empty means the name is missing.
pub open spec fn spec_parse_name(s: Seq<char>) -> Result<(Seq<char>, Seq<char>), ErrKind> {
    let t = trim_char(s, '/');
    let pr = rcut_char(t, '/');
    if pr.1.len() == 0 {
        Err(ErrKind::MissingName)
    } else {
        match pd(pr.1) {
            None => Err(ErrKind::Decoding),
            Some(nm) => Ok((pr.0, nm)),
        }
    }
}

/// Strip and decode the name.
pub fn parse_name(input: &str) -> (r: Result<(&str, String), Error>)
    ensures
        match spec_parse_name(input@) {
            Ok(pair) => r matches Ok(p) && p.0@ == pair.0 && p.1@ == pair.1,
            Err(e) => r matches Err(er) && er@ == e,
        },
{
    let t = trim_matching(input, '/');
    let pr = rcut(t, 47);
    proof {
        assert((47u8 as char) == '/');
    }
    if pr.1.unicode_len() == 0 {
        Err(Error::MissingName)
    } else {
        match percent_decode(pr.1) {
            None => Err(Error::DecodingError),
            Some(nm) => Ok((pr.0, nm)),
        }
    }
}

/// The pairs as the exec qualifier list models them.
pub open spec fn qual_pairs_view(v: Seq<(String, String)>) -> Seq<(Seq<char>, Seq<char>)> {
    v.map(|_i: int, p: (String, String)| (p.0@, p.1@))
}

/// Decode `key=value` pairs left to right: pairs with an empty raw value
/// are dropped; keys are validated then lowercased; values are
/// percent-decoded. Later duplicates stay in the list.
pub open spec fn spec_decode_pairs(pairs: Seq<Seq<char>>) -> Result<
    Seq<(Seq<char>, Seq<char>)>,
    ErrKind,
>
    decreases pairs.len(),
{
    if pairs.len() == 0 {
        Ok(Seq::empty())
    } else {
        let kv = cut_char(pairs[0], '=');
        if kv.1.len() == 0 {
            spec_decode_pairs(pairs.drop_first())
        } else if !spec_valid_key(kv.0) {
            Err(ErrKind::InvalidKey(kv.0))
        } else {
            match pd(kv.1) {
                None => Err(ErrKind::Decoding),
                Some(v) => match spec_decode_pairs(pairs.drop_first()) {
                    Ok(rest) => Ok(seq![(lower_chars(kv.0), v)] + rest),
                    Err(e) => Err(e),
                },
            }
        }
    }
}

proof fn lemma_decode_pairs_concat(a: Seq<Seq<char>>, b: Seq<Seq<char>>)
    ensures
        match spec_decode_pairs(a) {
            Err(e) => spec_decode_pairs(a + b) == Err::<Seq<(Seq<char>, Seq<char>)>, ErrKind>(e),
            Ok(da) => spec_decode_pairs(a + b) == (match spec_decode_pairs(b) {
                Ok(db) => Ok::<Seq<(Seq<char>, Seq<char>)>, ErrKind>(da + db),
                Err(e) => Err(e),
            }),
        },
    decreases a.len(),
{
    if a.len() == 0 {
        assert(a + b =~= b);
        assert(spec_decode_pairs(a) == Ok::<Seq<(Seq<char>, Seq<char>)>, ErrKind>(Seq::empty()));
        match spec_decode_pairs(b) {
            Ok(db) => {
                assert(Seq::<(Seq<char>, Seq<char>)>::empty() + db =~= db);
            },
            Err(_) => {
            },
        }
    } else {
        assert((a + b)[0] == a[0]);
        assert((a + b).len() > 0);
        assert((a + b).drop_first() =~= a.drop_first() + b);
        lemma_decode_pairs_concat(a.drop_first(), b);
        let kv = cut_char(a[0], '=');
        if kv.1.len() != 0 && spec_valid_key(kv.0) {
            match pd(kv.1) {
                None => {
                },
                Some(v) => {
                    match spec_decode_pairs(a.drop_first()) {
                        Ok(dr) => {
                            match spec_decode_pairs(b) {
                                Ok(db) => {
                                    assert(seq![(lower_chars(kv.0), v)] + (dr + db) =~= (seq![
                                        (lower_chars(kv.0), v),
                                    ] + dr) + db);
                                },
                                Err(_) => {
                                },
                            }
                        },
                        Err(_) => {
                        },
                    }
                },
            }
        }
    }
}

/// Model of qualifier parsing: everything after the last `?`, split on
/// `&`, each pair cut at its first `=` and decoded.
pub open spec fn spec_parse_qualifiers(s: Seq<char>) -> Result<
    (Seq<char>, Seq<(Seq<char>, Seq<char>)>),
    ErrKind,
> {
    match rfind_char(s, '?') {
        None => Ok((s, Seq::empty())),
        Some(i) => match spec_decode_pairs(split_char(s.skip(i + 1), '&')) {
            Ok(qs) => Ok((s.take(i), qs)),
            Err(e) => Err(e),
        },
    }
}

/// Strip the qualifiers, if a `?` marks them: a list of lowercased keys
/// and decoded values, pairs with an empty raw value dropped.
pub fn parse_qualifiers(input: &str) -> (r: Result<(&str, Vec<(String, String)>), Error>)
    ensures
        match spec_parse_qualifiers(input@) {
            Ok(pair) => r matches Ok(p) && p.0@ == pair.0 && qual_pairs_view(p.1@) == pair.1,
            Err(e) => r matches Err(er) && er@ == e,
        },
{
    let n = input.unicode_len();
    match rfind_in(input, '?') {
        None => {
            let quals: Vec<(String, String)> = Vec::new();
            proof {
                assert(qual_pairs_view(quals@) =~= Seq::<(Seq<char>, Seq<char>)>::empty());
            }
            Ok((input, quals))
        },
        Some(i) => {
            proof {
                lemma_rfind_char(input@, '?');
            }
            let suffix = input.substring_char(i + 1, n);
            proof {
                assert(suffix@ =~= input@.skip(i + 1));
            }
            match decode_pair_list(suffix) {
                Ok(quals) => Ok((input.substring_char(0, i), quals)),
                Err(e) => Err(e),
            }
        },
    }
}

/// Split on `&` and decode each pair in turn.
fn decode_pair_list(suffix: &str) -> (r: Result<Vec<(String, String)>, Error>)
    ensures
        match spec_decode_pairs(split_char(suffix@, '&')) {
            Ok(qs) => r matches Ok(v) && qual_pairs_view(v@) == qs,
            Err(e) => r matches Err(er) && er@ == e,
        },
{
    let mut rem: &str = suffix;
    let mut quals: Vec<(String, String)> = Vec::new();
    let ghost mut processed: Seq<Seq<char>> = Seq::empty();
    proof {
        reveal_with_fuel(spec_decode_pairs, 2);
        assert(split_char(suffix@, '&') =~= processed + split_char(rem@, '&'));
        assert(qual_pairs_view(quals@) =~= Seq::<(Seq<char>, Seq<char>)>::empty());
    }
    loop
        invariant
            split_char(suffix@, '&') == processed + split_char(rem@, '&'),
            spec_decode_pairs(processed) == Ok::<Seq<(Seq<char>, Seq<char>)>, ErrKind>(
                qual_pairs_view(quals@),
            ),
        decreases rem@.len(),
    {
        let n = rem.unicode_len();
        let fopt = find_in(rem, '&');
        let j_end: usize = match fopt {
            Some(j) => {
                proof {
                    lemma_find_char(rem@, '&');
                }
                j
            },
            None => n,
        };
        let pair_str = rem.substring_char(0, j_end);
        let ghost tail: Seq<Seq<char>> = match fopt {
            Some(j) => split_char(rem@.skip(j + 1), '&'),
            None => Seq::empty(),
        };
        proof {
            match fopt {
                Some(j) => {
                    assert(pair_str@ =~= rem@.take(j as int));
                    assert(split_char(rem@, '&') == seq![pair_str@] + tail);
                },
                None => {
                    lemma_find_char(rem@, '&');
                    assert(pair_str@ =~= rem@);
                    assert(split_char(rem@, '&') == seq![rem@]);
                    assert(split_char(rem@, '&') =~= seq![pair_str@] + tail);
                },
            }
            assert(split_char(suffix@, '&') =~= (processed + seq![pair_str@]) + tail);
            assert(seq![pair_str@].drop_first() =~= Seq::<Seq<char>>::empty());
        }
        let kv = cut(pair_str, 61);
        proof {
            assert((61u8 as char) == '=');
        }
        if kv.1.unicode_len() != 0 {
            if !is_qualifier_key_valid(kv.0) {
                proof {
                    let b = seq![pair_str@] + tail;
                    assert(b[0] == pair_str@ && b.len() > 0);
                    assert(spec_decode_pairs(b) == Err::<Seq<(Seq<char>, Seq<char>)>, ErrKind>(
                        ErrKind::InvalidKey(kv.0@),
                    ));
                    lemma_decode_pairs_concat(processed, b);
                    assert(processed + b =~= (processed + seq![pair_str@]) + tail);
                }
                return Err(Error::InvalidKey(String::from_str(kv.0)));
            }
            match percent_decode(kv.1) {
                None => {
                    proof {
                        let b = seq![pair_str@] + tail;
                        assert(b[0] == pair_str@ && b.len() > 0);
                        assert(spec_decode_pairs(b) == Err::<Seq<(Seq<char>, Seq<char>)>, ErrKind>(
                            ErrKind::Decoding,
                        ));
                        lemma_decode_pairs_concat(processed, b);
                        assert(processed + b =~= (processed + seq![pair_str@]) + tail);
                    }
                    return Err(Error::DecodingError);
                },
                Some(v) => {
                    let key = to_lower(kv.0);
                    let ghost old_quals = quals@;
                    quals.push((key, v));
                    proof {
                        reveal_with_fuel(spec_decode_pairs, 2);
                        let b = seq![pair_str@];
                        assert(b.drop_first() =~= Seq::<Seq<char>>::empty());
                        assert(seq![(lower_chars(cut_char(pair_str@, '=').0), pd(
                            cut_char(pair_str@, '=').1,
                        )->Some_0)] + Seq::<(Seq<char>, Seq<char>)>::empty() =~= seq![
                            (lower_chars(cut_char(pair_str@, '=').0), pd(
                                cut_char(pair_str@, '=').1,
                            )->Some_0),
                        ]);
                        assert(spec_decode_pairs(b) == Ok::<Seq<(Seq<char>, Seq<char>)>, ErrKind>(
                            seq![(lower_chars(cut_char(pair_str@, '=').0), pd(
                                cut_char(pair_str@, '=').1,
                            )->Some_0)],
                        ));
                        lemma_decode_pairs_concat(processed, b);
                        assert(qual_pairs_view(quals@) =~= qual_pairs_view(old_quals) + seq![
                            (lower_chars(cut_char(pair_str@, '=').0), pd(
                                cut_char(pair_str@, '=').1,
                            )->Some_0),
                        ]);
                        processed = processed + seq![pair_str@];
                    }
                },
            }
        } else {
            proof {
                reveal_with_fuel(spec_decode_pairs, 2);
                let b = seq![pair_str@];
                assert(b.drop_first() =~= Seq::<Seq<char>>::empty());
                assert(spec_decode_pairs(b) == Ok::<Seq<(Seq<char>, Seq<char>)>, ErrKind>(
                    Seq::empty(),
                ));
                lemma_decode_pairs_concat(processed, b);
                assert(qual_pairs_view(quals@) + Seq::<(Seq<char>, Seq<char>)>::empty()
                    =~= qual_pairs_view(quals@));
                processed = processed + seq![pair_str@];
            }
        }
        match fopt {
            Some(j) => {
                let next = rem.substring_char(j + 1, n);
                proof {
                    assert(next@ =~= rem@.skip(j + 1));
                    assert(split_char(suffix@, '&') =~= processed + split_char(next@, '&'));
                }
                rem = next;
            },
            None => {
                proof {
                    assert(split_char(suffix@, '&') =~= processed);
                }
                return Ok(quals);
            },
        }
    }
}

} // verus!
