//! The round-trip laws: decomposing a canonical form restores the purl it
//! was formatted from, so formatting is stable under re-parsing.

use crate::codec::{is_upper_hex, lemma_pe_absent_escaped, lemma_pe_absent_unescaped,
    lemma_pe_empty, lemma_pe_injective, lemma_percent_roundtrip, needs_escape, pd, pe};
use crate::errors::ErrKind;
use crate::parser::{keep_segment, kept_segments, pkg_chars, spec_decode_component,
    spec_decode_pairs, spec_decode_segs, spec_parse_name, spec_parse_namespace,
    spec_parse_qualifiers, spec_parse_scheme, spec_parse_subpath, spec_parse_type,
    spec_parse_version, seg_ok};
use crate::purl::{fmt_ns_segs, fmt_qual, fmt_quals, fmt_subpath, fold_name, fold_namespace,
    insert_qual, qual_entry_wf, quals_wf, spec_add_all, spec_add_qualifier, spec_assemble,
    spec_check_subpath, spec_format, spec_from_str, spec_new_model, subpath_wf, PurlModel};
use crate::strutil::{cut_char, find_char, join_char, lemma_find_char_at, lemma_join_split,
    lemma_rfind_char, lemma_rfind_char_at, lemma_split_join, lemma_split_len, lemma_split_no_sep,
    lemma_trim_noop, lex_lt, lower_char, lower_chars, replace_char, rfind_char, split_char,
    trim_char, trim_start_char};
use crate::validation::{spec_is_dot, spec_is_dotdot, spec_valid_key, spec_valid_type};
use vstd::prelude::*;

verus! {

/// A namespace string that survives a round trip: every `/`-separated
/// segment non-empty and neither `.` nor `..`.
pub open spec fn namespace_roundtrip_ok(ns: Seq<char>) -> bool {
    forall|i: int| 0 <= i < split_char(ns, '/').len() ==> keep_segment(#[trigger] split_char(ns, '/')[i])
}

/// Filtering keeps everything when every segment is kept.
proof fn lemma_kept_all(segs: Seq<Seq<char>>)
    requires
        forall|i: int| 0 <= i < segs.len() ==> keep_segment(#[trigger] segs[i]),
    ensures
        kept_segments(segs) == segs,
    decreases segs.len(),
{
    if segs.len() > 0 {
        assert(forall|i: int|
            0 <= i < segs.drop_first().len() ==> #[trigger] segs.drop_first()[i] == segs[i + 1]);
        lemma_kept_all(segs.drop_first());
        assert(kept_segments(segs) =~= segs);
    } else {
        assert(kept_segments(segs) =~= segs);
    }
}

/// The encoder fixes `.` and `..`.
proof fn lemma_pe_dots()
    ensures
        pe(seq!['.']) == seq!['.'],
        pe(seq!['.', '.']) == seq!['.', '.'],
{
    reveal_with_fuel(pe, 3);
    assert(!needs_escape('.'));
    let d1: Seq<char> = seq!['.'];
    let d2: Seq<char> = seq!['.', '.'];
    assert(d1.drop_first() =~= Seq::<char>::empty());
    assert(pe(d1) =~= seq!['.']);
    assert(d2.drop_first() =~= d1);
    assert(pe(d2) =~= seq!['.', '.']);
}

/// The encoding of a valid path segment: non-empty, `/`-free, kept by the
/// filter, and decoding back to the segment.
proof fn lemma_pe_seg(seg: Seq<char>)
    requires
        keep_segment(seg),
        forall|j: int| 0 <= j < seg.len() ==> seg[j] != '/',
    ensures
        pe(seg).len() > 0,
        forall|j: int| 0 <= j < pe(seg).len() ==> #[trigger] pe(seg)[j] != '/',
        keep_segment(pe(seg)),
        pd(pe(seg)) == Some(seg),
{
    lemma_pe_empty(seg);
    assert(!seg.contains('/'));
    lemma_pe_absent_unescaped(seg, '/');
    lemma_percent_roundtrip(seg);
    lemma_pe_dots();
    if spec_is_dot(pe(seg)) {
        assert(pe(seg) =~= pe(seq!['.']));
        lemma_pe_injective(seg, seq!['.']);
    }
    if spec_is_dotdot(pe(seg)) {
        assert(pe(seg) =~= pe(seq!['.', '.']));
        lemma_pe_injective(seg, seq!['.', '.']);
    }
}

/// A join is delimited by its parts: it starts with the first part's first
/// character and ends with the last part's last character.
proof fn lemma_join_ends(parts: Seq<Seq<char>>, c: char)
    requires
        parts.len() >= 1,
        forall|i: int| 0 <= i < parts.len() ==> (#[trigger] parts[i]).len() > 0,
    ensures
        join_char(parts, c).len() > 0,
        join_char(parts, c)[0] == parts[0][0],
        join_char(parts, c)[join_char(parts, c).len() - 1] == parts[parts.len() - 1][parts[parts.len()
            - 1].len() - 1],
    decreases parts.len(),
{
    if parts.len() == 1 {
    } else {
        assert(forall|i: int|
            0 <= i < parts.drop_first().len() ==> #[trigger] parts.drop_first()[i] == parts[i + 1]);
        lemma_join_ends(parts.drop_first(), c);
        let j = join_char(parts, c);
        let t = join_char(parts.drop_first(), c);
        assert(j == parts[0] + seq![c] + t);
        assert(j[0] == parts[0][0]);
        assert(j[j.len() - 1] == t[t.len() - 1]);
        assert(parts.drop_first()[parts.drop_first().len() - 1] == parts[parts.len() - 1]);
    }
}

/// A character absent from every part and distinct from the separator is
/// absent from the join.
proof fn lemma_join_absent(parts: Seq<Seq<char>>, c: char, d: char)
    requires
        d != c,
        forall|i: int, j: int|
            0 <= i < parts.len() && 0 <= j < parts[i].len() ==> #[trigger] parts[i][j] != d,
    ensures
        forall|k: int| 0 <= k < join_char(parts, c).len() ==> #[trigger] join_char(parts, c)[k] != d,
    decreases parts.len(),
{
    if parts.len() == 0 {
    } else if parts.len() == 1 {
        assert(join_char(parts, c) == parts[0]);
        assert(forall|j: int| 0 <= j < parts[0].len() ==> #[trigger] parts[0][j] != d);
    } else {
        assert(forall|i: int, j: int|
            0 <= i < parts.drop_first().len() && 0 <= j < parts.drop_first()[i].len()
                ==> #[trigger] parts.drop_first()[i][j] != d) by {
            assert(forall|i: int|
                0 <= i < parts.drop_first().len() ==> #[trigger] parts.drop_first()[i] == parts[i
                    + 1]);
        }
        lemma_join_absent(parts.drop_first(), c, d);
        let j = join_char(parts, c);
        let t = join_char(parts.drop_first(), c);
        assert(j == parts[0] + seq![c] + t);
        assert forall|k: int| 0 <= k < j.len() implies #[trigger] j[k] != d by {
            if k < parts[0].len() {
                assert(j[k] == parts[0][k]);
            } else if k == parts[0].len() {
                assert(j[k] == c);
            } else {
                assert(j[k] == t[k - parts[0].len() - 1]);
            }
        }
    }
}

/// Each segment percent-encoded.
pub open spec fn pe_all(segs: Seq<Seq<char>>) -> Seq<Seq<char>> {
    segs.map(|_i: int, g: Seq<char>| pe(g))
}

/// Decoding the encodings of valid segments restores them.
proof fn lemma_decode_pe_segs(segs: Seq<Seq<char>>, subpath: bool)
    requires
        forall|i: int| 0 <= i < segs.len() ==> seg_ok(#[trigger] segs[i], subpath),
    ensures
        spec_decode_segs(pe_all(segs), subpath) == Ok::<Seq<Seq<char>>, ErrKind>(segs),
    decreases segs.len(),
{
    let pm = |_i: int, g: Seq<char>| pe(g);
    assert(pe_all(segs) == segs.map(pm));
    if segs.len() == 0 {
        assert(segs.map(pm) =~= Seq::<Seq<char>>::empty());
        assert(segs =~= Seq::<Seq<char>>::empty());
        assert(spec_decode_segs(pe_all(segs), subpath) == Ok::<Seq<Seq<char>>, ErrKind>(segs));
    } else {
        assert(forall|i: int|
            0 <= i < segs.drop_first().len() ==> #[trigger] segs.drop_first()[i] == segs[i + 1]);
        lemma_decode_pe_segs(segs.drop_first(), subpath);
        lemma_percent_roundtrip(segs[0]);
        let mapped = segs.map(pm);
        assert(pe_all(segs.drop_first()) == segs.drop_first().map(pm));
        assert(mapped.len() > 0);
        assert(mapped[0] == pe(segs[0]));
        assert(mapped.drop_first() =~= segs.drop_first().map(pm));
        assert(spec_decode_segs(mapped, subpath) == (match spec_decode_segs(
            mapped.drop_first(),
            subpath,
        ) {
            Ok(rest) => Ok::<Seq<Seq<char>>, ErrKind>(seq![segs[0]] + rest),
            Err(e) => Err(e),
        }));
        assert(seq![segs[0]] + segs.drop_first() =~= segs);
    }
}

/// The namespace part is the `/`-join of the encoded segments, followed
/// by one `/`.
proof fn lemma_fmt_ns_join(segs: Seq<Seq<char>>)
    requires
        segs.len() >= 1,
    ensures
        fmt_ns_segs(segs) == join_char(pe_all(segs), '/') + seq!['/'],
    decreases segs.len(),
{
    let pm = |_i: int, g: Seq<char>| pe(g);
    assert(pe_all(segs) == segs.map(pm));
    if segs.len() == 1 {
        assert(segs.drop_first() =~= Seq::<Seq<char>>::empty());
        assert(fmt_ns_segs(segs) == pe(segs[0]) + seq!['/'] + fmt_ns_segs(segs.drop_first()));
        assert(segs.map(pm).len() == 1);
        assert(join_char(segs.map(pm), '/') == segs.map(pm)[0]);
        assert(segs.map(pm)[0] == pe(segs[0]));
        assert(fmt_ns_segs(segs) =~= join_char(segs.map(pm), '/') + seq!['/']);
    } else {
        lemma_fmt_ns_join(segs.drop_first());
        assert(pe_all(segs.drop_first()) == segs.drop_first().map(pm));
        assert(segs.drop_first().map(pm) =~= segs.map(pm).drop_first());
        assert(segs.map(pm).len() >= 2);
        assert(join_char(segs.map(pm), '/') == segs.map(pm)[0] + seq!['/'] + join_char(
            segs.map(pm).drop_first(),
            '/',
        ));
        assert(segs.map(pm)[0] == pe(segs[0]));
        assert(fmt_ns_segs(segs) == pe(segs[0]) + seq!['/'] + fmt_ns_segs(segs.drop_first()));
        assert(fmt_ns_segs(segs) =~= join_char(segs.map(pm), '/') + seq!['/']);
    }
}

// --- character classes keep the markers unambiguous ---
proof fn lemma_type_no_delims(t: Seq<char>)
    requires
        spec_valid_type(t),
    ensures
        forall|i: int|
            0 <= i < t.len() ==> (#[trigger] t[i]) != '#' && t[i] != '?' && t[i] != '@' && t[i]
                != '/' && t[i] != ':',
{
    assert forall|i: int| 0 <= i < t.len() implies (#[trigger] t[i]) != '#' && t[i] != '?' && t[i]
        != '@' && t[i] != '/' && t[i] != ':' by {
        assert(crate::validation::spec_type_char(t[i]));
    }
}

proof fn lemma_key_no_delims(k: Seq<char>)
    requires
        spec_valid_key(k),
    ensures
        forall|i: int|
            0 <= i < k.len() ==> (#[trigger] k[i]) != '#' && k[i] != '?' && k[i] != '@' && k[i]
                != '=' && k[i] != '&',
{
    assert forall|i: int| 0 <= i < k.len() implies (#[trigger] k[i]) != '#' && k[i] != '?' && k[i]
        != '@' && k[i] != '=' && k[i] != '&' by {
        assert(crate::validation::spec_key_char(k[i]));
    }
}

/// The delimiters are escaped and are neither `%` nor hexadecimal digits.
proof fn lemma_delim_escaped()
    ensures
        needs_escape('#') && !is_upper_hex('#') && '#' != '%',
        needs_escape('?') && !is_upper_hex('?') && '?' != '%',
        needs_escape('@') && !is_upper_hex('@') && '@' != '%',
        needs_escape('=') && !is_upper_hex('=') && '=' != '%',
        !needs_escape('/') && !is_upper_hex('/') && '/' != '%',
        !needs_escape('&') && !is_upper_hex('&') && '&' != '%',
        !needs_escape('.') && !needs_escape(':'),
{
}

// --- the subpath part round trip ---
/// The subpath part holds no `#`, `?` or `@`, and decodes back to the
/// subpath.
proof fn lemma_fmt_subpath_roundtrip(sp: Seq<char>)
    requires
        subpath_wf(sp),
    ensures
        spec_decode_component(fmt_subpath(sp), true) == Ok::<Seq<char>, ErrKind>(sp),
        forall|k: int|
            0 <= k < fmt_subpath(sp).len() ==> (#[trigger] fmt_subpath(sp)[k]) != '#'
                && fmt_subpath(sp)[k] != '?' && fmt_subpath(sp)[k] != '@',
{
    let segs = split_char(sp, '/');
    lemma_split_len(sp, '/');
    lemma_split_no_sep(sp, '/');
    assert(forall|i: int| 0 <= i < segs.len() ==> keep_segment(#[trigger] segs[i]));
    lemma_kept_all(segs);
    let eps = pe_all(segs);
    let pm = |_i: int, g: Seq<char>| pe(g);
    assert(kept_segments(segs).map(pm) == eps);
    let body = join_char(eps, '/');
    assert(fmt_subpath(sp) == body);
    assert forall|i: int| 0 <= i < eps.len() implies (#[trigger] eps[i]).len() > 0 && (forall|
        j: int,
    |
        0 <= j < eps[i].len() ==> eps[i][j] != '/') && keep_segment(eps[i]) by {
        assert(eps[i] == pe(segs[i]));
        lemma_pe_seg(segs[i]);
    }
    // content: no '#', '?' or '@' anywhere in the joined body
    lemma_delim_escaped();
    assert forall|i: int, j: int| 0 <= i < eps.len() && 0 <= j < eps[i].len() implies (
    #[trigger] eps[i][j]) != '#' && eps[i][j] != '?' && eps[i][j] != '@' by {
        assert(eps[i] == pe(segs[i]));
        lemma_pe_absent_escaped(segs[i], '#');
        lemma_pe_absent_escaped(segs[i], '?');
        lemma_pe_absent_escaped(segs[i], '@');
    }
    lemma_join_absent(eps, '/', '#');
    lemma_join_absent(eps, '/', '?');
    lemma_join_absent(eps, '/', '@');
    // decoding the body restores the subpath
    lemma_join_ends(eps, '/');
    assert(trim_char(body, '/') == body) by {
        assert(eps[0] == pe(segs[0]));
        assert(eps[eps.len() - 1] == pe(segs[segs.len() - 1]));
        lemma_trim_noop(body, '/');
    }
    assert forall|i: int, j: int| 0 <= i < eps.len() && 0 <= j < eps[i].len() implies (
    #[trigger] eps[i][j]) != '/' by {
        assert(eps[i] == pe(segs[i]));
    }
    lemma_split_join(eps, '/');
    lemma_kept_all(eps);
    assert(forall|i: int| 0 <= i < segs.len() ==> seg_ok(#[trigger] segs[i], true));
    lemma_decode_pe_segs(segs, true);
    lemma_join_split(sp, '/');
}

// --- the namespace part round trip ---
/// The namespace body (the join without its trailing `/`) decodes back to
/// the namespace.
proof fn lemma_fmt_ns_roundtrip(ns: Seq<char>)
    requires
        namespace_roundtrip_ok(ns),
    ensures
        spec_decode_component(join_char(pe_all(split_char(ns, '/')), '/'), false) == Ok::<
            Seq<char>,
            ErrKind,
        >(ns),
{
    let segs = split_char(ns, '/');
    lemma_split_len(ns, '/');
    lemma_split_no_sep(ns, '/');
    let eps = pe_all(segs);
    let body = join_char(eps, '/');
    assert forall|i: int| 0 <= i < eps.len() implies (#[trigger] eps[i]).len() > 0 && (forall|
        j: int,
    |
        0 <= j < eps[i].len() ==> eps[i][j] != '/') && keep_segment(eps[i]) by {
        assert(eps[i] == pe(segs[i]));
        lemma_pe_seg(segs[i]);
    }
    lemma_join_ends(eps, '/');
    assert(trim_char(body, '/') == body) by {
        assert(eps[0] == pe(segs[0]));
        assert(eps[eps.len() - 1] == pe(segs[segs.len() - 1]));
        lemma_trim_noop(body, '/');
    }
    assert forall|i: int, j: int| 0 <= i < eps.len() && 0 <= j < eps[i].len() implies (
    #[trigger] eps[i][j]) != '/' by {
        assert(eps[i] == pe(segs[i]));
    }
    lemma_split_join(eps, '/');
    lemma_kept_all(eps);
    assert forall|i: int| 0 <= i < segs.len() implies seg_ok(#[trigger] segs[i], false) by {
        assert(keep_segment(segs[i]));
    }
    lemma_decode_pe_segs(segs, false);
    lemma_join_split(ns, '/');
}

// --- the qualifier part round trip ---
/// The emitted pairs, one per qualifier.
pub open spec fn fmt_qual_all(qs: Seq<(Seq<char>, Seq<char>)>) -> Seq<Seq<char>> {
    qs.map(|_i: int, p: (Seq<char>, Seq<char>)| fmt_qual(p))
}

/// Decoding the emitted pairs restores the qualifiers.
proof fn lemma_decode_fmt_pairs(qs: Seq<(Seq<char>, Seq<char>)>)
    requires
        forall|i: int| 0 <= i < qs.len() ==> qual_entry_wf(#[trigger] qs[i]),
    ensures
        spec_decode_pairs(fmt_qual_all(qs)) == Ok::<Seq<(Seq<char>, Seq<char>)>, ErrKind>(qs),
    decreases qs.len(),
{
    let fm = |_i: int, p: (Seq<char>, Seq<char>)| fmt_qual(p);
    assert(fmt_qual_all(qs) == qs.map(fm));
    if qs.len() == 0 {
        assert(qs.map(fm) =~= Seq::<Seq<char>>::empty());
        assert(qs =~= Seq::<(Seq<char>, Seq<char>)>::empty());
        assert(spec_decode_pairs(fmt_qual_all(qs)) == Ok::<Seq<(Seq<char>, Seq<char>)>, ErrKind>(
            qs,
        ));
    } else {
        assert(forall|i: int|
            0 <= i < qs.drop_first().len() ==> #[trigger] qs.drop_first()[i] == qs[i + 1]);
        lemma_decode_fmt_pairs(qs.drop_first());
        assert(fmt_qual_all(qs.drop_first()) == qs.drop_first().map(fm));
        let k = qs[0].0;
        let v = qs[0].1;
        let part = fmt_qual(qs[0]);
        let mapped = qs.map(fm);
        assert(mapped[0] == part);
        assert(mapped.drop_first() =~= qs.drop_first().map(fm));
        // the first `=` cuts the part into key and encoded value
        lemma_key_no_delims(k);
        assert(part[k.len() as int] == '=');
        assert forall|j: int| 0 <= j < k.len() implies part[j] != '=' by {
            assert(part[j] == k[j]);
        }
        lemma_find_char_at(part, '=', k.len() as int);
        assert(cut_char(part, '=').0 =~= k);
        assert(cut_char(part, '=').1 =~= pe(v));
        lemma_pe_empty(v);
        lemma_percent_roundtrip(v);
        assert(lower_chars(k) == k);
        assert(spec_decode_pairs(mapped) == (match spec_decode_pairs(mapped.drop_first()) {
            Ok(rest) => Ok::<Seq<(Seq<char>, Seq<char>)>, ErrKind>(seq![(k, v)] + rest),
            Err(e) => Err(e),
        }));
        assert(seq![(k, v)] + qs.drop_first() =~= qs);
    }
}

/// The qualifier part holds neither `#` nor `?`.
proof fn lemma_fmt_quals_chars(qs: Seq<(Seq<char>, Seq<char>)>)
    requires
        forall|i: int| 0 <= i < qs.len() ==> qual_entry_wf(#[trigger] qs[i]),
    ensures
        forall|j: int|
            0 <= j < fmt_quals(qs).len() ==> (#[trigger] fmt_quals(qs)[j]) != '#' && fmt_quals(
                qs,
            )[j] != '?',
{
    let fm = |_i: int, p: (Seq<char>, Seq<char>)| fmt_qual(p);
    let parts = qs.map(fm);
    lemma_delim_escaped();
    assert forall|i: int, j: int| 0 <= i < parts.len() && 0 <= j < parts[i].len() implies (
    #[trigger] parts[i][j]) != '#' && parts[i][j] != '?' by {
        assert(parts[i] == fmt_qual(qs[i]));
        lemma_key_no_delims(qs[i].0);
        lemma_pe_absent_escaped(qs[i].1, '#');
        lemma_pe_absent_escaped(qs[i].1, '?');
        let k = qs[i].0;
        let part = fmt_qual(qs[i]);
        if j < k.len() {
            assert(part[j] == k[j]);
        } else if j == k.len() {
            assert(part[j] == '=');
        } else {
            assert(part[j] == pe(qs[i].1)[j - k.len() - 1]);
        }
    }
    lemma_join_absent(parts, '&', '#');
    lemma_join_absent(parts, '&', '?');
    assert(fmt_quals(qs) == join_char(parts, '&'));
}

/// Inserting a key above every present key appends.
proof fn lemma_insert_append(qs: Seq<(Seq<char>, Seq<char>)>, k: Seq<char>, v: Seq<char>)
    requires
        forall|i: int| 0 <= i < qs.len() ==> lex_lt(#[trigger] qs[i].0, k),
    ensures
        insert_qual(qs, k, v) == qs.push((k, v)),
    decreases qs.len(),
{
    if qs.len() == 0 {
        assert(insert_qual(qs, k, v) =~= qs.push((k, v)));
    } else {
        crate::strutil::lemma_lex_lt_total(k, qs[0].0);
        assert(forall|i: int|
            0 <= i < qs.drop_first().len() ==> lex_lt(#[trigger] qs.drop_first()[i].0, k));
        lemma_insert_append(qs.drop_first(), k, v);
        assert(insert_qual(qs, k, v) == seq![qs[0]] + qs.drop_first().push((k, v)));
        assert(seq![qs[0]] + qs.drop_first().push((k, v)) =~= qs.push((k, v)));
    }
}

/// Adding well-formed qualifiers in ascending key order appends them all.
proof fn lemma_add_all_sorted(m: PurlModel, rest: Seq<(Seq<char>, Seq<char>)>)
    requires
        quals_wf(m.qualifiers + rest),
    ensures
        spec_add_all(m, rest) == Ok::<PurlModel, ErrKind>(
            PurlModel { qualifiers: m.qualifiers + rest, ..m },
        ),
    decreases rest.len(),
{
    let whole = m.qualifiers + rest;
    if rest.len() == 0 {
        assert(whole =~= m.qualifiers);
        assert(PurlModel { qualifiers: whole, ..m } =~= m);
    } else {
        let p = rest[0];
        assert(whole[m.qualifiers.len() as int] == p);
        assert(qual_entry_wf(p));
        assert forall|i: int| 0 <= i < m.qualifiers.len() implies lex_lt(
            #[trigger] m.qualifiers[i].0,
            p.0,
        ) by {
            assert(whole[i] == m.qualifiers[i]);
            assert(lex_lt(whole[i].0, whole[m.qualifiers.len() as int].0));
        }
        lemma_insert_append(m.qualifiers, p.0, p.1);
        assert(lower_chars(p.0) == p.0);
        let m2 = PurlModel { qualifiers: m.qualifiers.push(p), ..m };
        assert(spec_add_qualifier(m, p.0, p.1) == Ok::<PurlModel, ErrKind>(m2));
        assert(m2.qualifiers + rest.drop_first() =~= whole);
        lemma_add_all_sorted(m2, rest.drop_first());
        assert(PurlModel { qualifiers: m2.qualifiers + rest.drop_first(), ..m2 } =~= PurlModel {
            qualifiers: whole,
            ..m
        });
    }
}

// --- locating the markers ---
/// The last occurrence of a marker absent from the part after it.
proof fn lemma_rfind_marker(aa: Seq<char>, bb: Seq<char>, c: char)
    requires
        forall|j: int| 0 <= j < bb.len() ==> #[trigger] bb[j] != c,
    ensures
        rfind_char(aa + seq![c] + bb, c) == Some(aa.len() as int),
        (aa + seq![c] + bb).take(aa.len() as int) == aa,
        (aa + seq![c] + bb).skip(aa.len() as int + 1) == bb,
{
    let s = aa + seq![c] + bb;
    assert(s[aa.len() as int] == c);
    assert forall|j: int| aa.len() < j < s.len() implies s[j] != c by {
        assert(s[j] == bb[j - aa.len() - 1]);
    }
    lemma_rfind_char_at(s, c, aa.len() as int);
    assert(s.take(aa.len() as int) =~= aa);
    assert(s.skip(aa.len() as int + 1) =~= bb);
}

/// The first occurrence of a marker absent from the part before it.
proof fn lemma_find_marker(aa: Seq<char>, bb: Seq<char>, c: char)
    requires
        forall|j: int| 0 <= j < aa.len() ==> #[trigger] aa[j] != c,
    ensures
        find_char(aa + seq![c] + bb, c) == Some(aa.len() as int),
        (aa + seq![c] + bb).take(aa.len() as int) == aa,
        (aa + seq![c] + bb).skip(aa.len() as int + 1) == bb,
{
    let s = aa + seq![c] + bb;
    assert(s[aa.len() as int] == c);
    assert forall|j: int| 0 <= j < aa.len() implies s[j] != c by {
        assert(s[j] == aa[j]);
    }
    lemma_find_char_at(s, c, aa.len() as int);
    assert(s.take(aa.len() as int) =~= aa);
    assert(s.skip(aa.len() as int + 1) =~= bb);
}

/// No occurrence at all.
proof fn lemma_rfind_absent(s: Seq<char>, c: char)
    requires
        forall|j: int| 0 <= j < s.len() ==> #[trigger] s[j] != c,
    ensures
        rfind_char(s, c) is None,
{
    lemma_rfind_char(s, c);
    if rfind_char(s, c) is Some {
        let i = rfind_char(s, c)->Some_0;
        assert(s[i] == c);
    }
}

/// `c` occurs nowhere in `s`.
pub open spec fn absent(s: Seq<char>, c: char) -> bool {
    forall|j: int| 0 <= j < s.len() ==> #[trigger] s[j] != c
}

proof fn lemma_absent_concat(x: Seq<char>, y: Seq<char>, c: char)
    requires
        absent(x, c),
        absent(y, c),
    ensures
        absent(x + y, c),
{
    assert forall|j: int| 0 <= j < (x + y).len() implies #[trigger] (x + y)[j] != c by {
        if j < x.len() {
            assert((x + y)[j] == x[j]);
        } else {
            assert((x + y)[j] == y[j - x.len()]);
        }
    }
}

/// Everything the namespace part satisfies: it is the `/`-join of the
/// encoded segments plus a trailing `/`; the join is non-empty and not
/// `/`-delimited at its ends; it decodes back; no marker occurs in it.
proof fn lemma_fmt_ns_all(ns: Seq<char>)
    requires
        namespace_roundtrip_ok(ns),
    ensures
        ({
            let body = join_char(pe_all(split_char(ns, '/')), '/');
            &&& fmt_ns_segs(split_char(ns, '/')) == body + seq!['/']
            &&& body.len() > 0
            &&& body[0] != '/'
            &&& body[body.len() - 1] != '/'
            &&& spec_decode_component(body, false) == Ok::<Seq<char>, ErrKind>(ns)
            &&& absent(body, '#')
            &&& absent(body, '?')
            &&& absent(body, '@')
        }),
{
    let segs = split_char(ns, '/');
    lemma_split_len(ns, '/');
    lemma_split_no_sep(ns, '/');
    lemma_fmt_ns_join(segs);
    lemma_fmt_ns_roundtrip(ns);
    lemma_delim_escaped();
    let eps = pe_all(segs);
    let body = join_char(eps, '/');
    assert forall|i: int| 0 <= i < eps.len() implies (#[trigger] eps[i]).len() > 0 by {
        assert(eps[i] == pe(segs[i]));
        lemma_pe_seg(segs[i]);
    }
    lemma_join_ends(eps, '/');
    assert(eps[0] == pe(segs[0]));
    assert(eps[eps.len() - 1] == pe(segs[segs.len() - 1]));
    assert(body[0] != '/') by {
        lemma_pe_seg(segs[0]);
    }
    assert(body[body.len() - 1] != '/') by {
        lemma_pe_seg(segs[segs.len() - 1]);
    }
    assert forall|i: int, j: int| 0 <= i < eps.len() && 0 <= j < eps[i].len() implies (
    #[trigger] eps[i][j]) != '#' && eps[i][j] != '?' && eps[i][j] != '@' by {
        assert(eps[i] == pe(segs[i]));
        lemma_pe_absent_escaped(segs[i], '#');
        lemma_pe_absent_escaped(segs[i], '?');
        lemma_pe_absent_escaped(segs[i], '@');
    }
    lemma_join_absent(eps, '/', '#');
    lemma_join_absent(eps, '/', '?');
    lemma_join_absent(eps, '/', '@');
}

/// When the pypi normalization already holds, it is invariant under the
/// parse-side folding order as well.
proof fn lemma_pypi_fold_fixed(name: Seq<char>)
    requires
        replace_char(lower_chars(name), '_', '-') == name,
    ensures
        lower_chars(replace_char(name, '_', '-')) == name,
{
    assert forall|i: int| 0 <= i < name.len() implies lower_chars(replace_char(name, '_', '-'))[i]
        == name[i] by {
        let c = name[i];
        assert(c == replace_char(lower_chars(name), '_', '-')[i]);
        assert(c == if lower_char(name[i]) == '_' {
            '-'
        } else {
            lower_char(name[i])
        });
    }
    assert(lower_chars(replace_char(name, '_', '-')) =~= name);
}

/// The conditions under which a purl survives a round trip through its
/// canonical form: well-formed, with a non-empty `/`-free name, namespace
/// segments that survive filtering, and `&`-free qualifier values.
pub open spec fn roundtrip_ok(m: PurlModel) -> bool {
    &&& m.wf()
    &&& m.name.len() > 0
    &&& absent(m.name, '/')
    &&& match m.namespace {
        Some(ns) => namespace_roundtrip_ok(ns),
        None => true,
    }
    &&& forall|i: int, j: int|
        0 <= i < m.qualifiers.len() && 0 <= j < m.qualifiers[i].1.len()
            ==> #[trigger] m.qualifiers[i].1[j] != '&'
}

/// The namespace part of the canonical form.
pub open spec fn fpart_ns(m: PurlModel) -> Seq<char> {
    match m.namespace {
        Some(ns) => fmt_ns_segs(split_char(ns, '/')),
        None => Seq::<char>::empty(),
    }
}

/// The version part of the canonical form.
pub open spec fn fpart_v(m: PurlModel) -> Seq<char> {
    match m.version {
        Some(v) => seq!['@'] + pe(v),
        None => Seq::<char>::empty(),
    }
}

/// The qualifier part of the canonical form.
pub open spec fn fpart_q(m: PurlModel) -> Seq<char> {
    if m.qualifiers.len() > 0 {
        seq!['?'] + fmt_quals(m.qualifiers)
    } else {
        Seq::<char>::empty()
    }
}

/// The subpath part of the canonical form.
pub open spec fn fpart_sp(m: PurlModel) -> Seq<char> {
    match m.subpath {
        Some(sp) => seq!['#'] + fmt_subpath(sp),
        None => Seq::<char>::empty(),
    }
}

/// What remains before the name is taken: the namespace body.
pub open spec fn rest6(m: PurlModel) -> Seq<char> {
    match m.namespace {
        Some(ns) => join_char(pe_all(split_char(ns, '/')), '/'),
        None => Seq::<char>::empty(),
    }
}

/// The remainder after the type is removed.
pub open spec fn rest5(m: PurlModel) -> Seq<char> {
    fpart_ns(m) + pe(m.name)
}

/// The remainder after the version is removed.
pub open spec fn rest4(m: PurlModel) -> Seq<char> {
    m.ty + seq!['/'] + rest5(m)
}

/// The remainder after the qualifiers are removed.
pub open spec fn rest3(m: PurlModel) -> Seq<char> {
    rest4(m) + fpart_v(m)
}

/// The remainder after the subpath is removed.
pub open spec fn rest2(m: PurlModel) -> Seq<char> {
    rest3(m) + fpart_q(m)
}

/// The remainder after the scheme is removed.
pub open spec fn rest1(m: PurlModel) -> Seq<char> {
    rest2(m) + fpart_sp(m)
}

/// Inventory: the suffix markers do not occur before their own parts.
proof fn lemma_rt_inventory(m: PurlModel)
    requires
        roundtrip_ok(m),
    ensures
        absent(rest4(m), '@'),
        absent(rest3(m), '?'),
        absent(rest2(m), '#'),
{
    lemma_delim_escaped();
    let t = m.ty;
    let en = pe(m.name);
    lemma_type_no_delims(t);
    lemma_pe_absent_escaped(m.name, '#');
    lemma_pe_absent_escaped(m.name, '?');
    lemma_pe_absent_escaped(m.name, '@');
    if m.namespace is Some {
        lemma_fmt_ns_all(m.namespace->Some_0);
        let body = rest6(m);
        assert(fpart_ns(m) == body + seq!['/']);
        lemma_absent_concat(body, seq!['/'], '#');
        lemma_absent_concat(body, seq!['/'], '?');
        lemma_absent_concat(body, seq!['/'], '@');
    }
    assert(absent(fpart_ns(m), '#') && absent(fpart_ns(m), '?') && absent(fpart_ns(m), '@'));
    lemma_absent_concat(t, seq!['/'], '@');
    lemma_absent_concat(t + seq!['/'], fpart_ns(m), '@');
    lemma_absent_concat(t + seq!['/'] + fpart_ns(m), en, '@');
    assert(t + seq!['/'] + fpart_ns(m) + en =~= rest4(m));
    lemma_absent_concat(t, seq!['/'], '?');
    lemma_absent_concat(t + seq!['/'], fpart_ns(m), '?');
    lemma_absent_concat(t + seq!['/'] + fpart_ns(m), en, '?');
    if m.version is Some {
        let v = m.version->Some_0;
        lemma_pe_absent_escaped(v, '#');
        lemma_pe_absent_escaped(v, '?');
        lemma_absent_concat(seq!['@'], pe(v), '#');
        lemma_absent_concat(seq!['@'], pe(v), '?');
    }
    assert(absent(fpart_v(m), '#') && absent(fpart_v(m), '?'));
    lemma_absent_concat(rest4(m), fpart_v(m), '?');
    lemma_absent_concat(t, seq!['/'], '#');
    lemma_absent_concat(t + seq!['/'], fpart_ns(m), '#');
    lemma_absent_concat(t + seq!['/'] + fpart_ns(m), en, '#');
    lemma_absent_concat(rest4(m), fpart_v(m), '#');
    if m.qualifiers.len() > 0 {
        lemma_fmt_quals_chars(m.qualifiers);
        lemma_absent_concat(seq!['?'], fmt_quals(m.qualifiers), '#');
    }
    assert(absent(fpart_q(m), '#'));
    lemma_absent_concat(rest3(m), fpart_q(m), '#');
}

/// The scheme step of the round trip.
proof fn lemma_rt_scheme(m: PurlModel)
    requires
        roundtrip_ok(m),
    ensures
        spec_parse_scheme(spec_format(m)) == Ok::<Seq<char>, ErrKind>(rest1(m)),
{
    let pkg3: Seq<char> = seq!['p', 'k', 'g'];
    let f = spec_format(m);
    let r1 = rest1(m);
    assert(f =~= pkg3 + seq![':'] + r1);
    lemma_find_marker(pkg3, r1, ':');
    assert(lower_chars(pkg3) =~= pkg_chars());
    lemma_type_no_delims(m.ty);
    assert(m.ty.len() > 0);
    assert(r1[0] == m.ty[0]);
    assert(r1.len() > 0 && r1[0] != '/');
    assert(trim_start_char(r1, '/') == r1);
}

/// The subpath step of the round trip.
proof fn lemma_rt_subpath(m: PurlModel)
    requires
        roundtrip_ok(m),
    ensures
        spec_parse_subpath(rest1(m)) == Ok::<(Seq<char>, Option<Seq<char>>), ErrKind>(
            (rest2(m), m.subpath),
        ),
{
    lemma_rt_inventory(m);
    match m.subpath {
        Some(sp) => {
            lemma_fmt_subpath_roundtrip(sp);
            assert(absent(fmt_subpath(sp), '#'));
            assert(rest1(m) =~= rest2(m) + seq!['#'] + fmt_subpath(sp));
            lemma_rfind_marker(rest2(m), fmt_subpath(sp), '#');
        },
        None => {
            assert(rest1(m) =~= rest2(m));
            lemma_rfind_absent(rest1(m), '#');
        },
    }
}

/// The qualifier step of the round trip.
proof fn lemma_rt_quals(m: PurlModel)
    requires
        roundtrip_ok(m),
    ensures
        spec_parse_qualifiers(rest2(m)) == Ok::<(Seq<char>, Seq<(Seq<char>, Seq<char>)>), ErrKind>(
            (rest3(m), m.qualifiers),
        ),
{
    lemma_rt_inventory(m);
    lemma_delim_escaped();
    if m.qualifiers.len() > 0 {
        let qs = m.qualifiers;
        let parts = fmt_qual_all(qs);
        lemma_fmt_quals_chars(qs);
        assert(rest2(m) =~= rest3(m) + seq!['?'] + fmt_quals(qs));
        lemma_rfind_marker(rest3(m), fmt_quals(qs), '?');
        assert(parts.len() == qs.len());
        assert forall|i: int, j: int| 0 <= i < parts.len() && 0 <= j < parts[i].len() implies (
        #[trigger] parts[i][j]) != '&' by {
            assert(parts[i] == fmt_qual(qs[i]));
            lemma_key_no_delims(qs[i].0);
            assert(!qs[i].1.contains('&'));
            lemma_pe_absent_unescaped(qs[i].1, '&');
            let k = qs[i].0;
            let part = fmt_qual(qs[i]);
            if j < k.len() {
                assert(part[j] == k[j]);
            } else if j == k.len() {
                assert(part[j] == '=');
            } else {
                assert(part[j] == pe(qs[i].1)[j - k.len() - 1]);
            }
        }
        lemma_split_join(parts, '&');
        assert(fmt_quals(qs) == join_char(parts, '&'));
        lemma_decode_fmt_pairs(qs);
        let i = rest3(m).len() as int;
        assert(rfind_char(rest2(m), '?') == Some(i));
        assert(rest2(m).skip(i + 1) == fmt_quals(qs));
        assert(rest2(m).take(i) == rest3(m));
        assert(split_char(fmt_quals(qs), '&') == parts);
        assert(spec_decode_pairs(split_char(rest2(m).skip(i + 1), '&')) == Ok::<
            Seq<(Seq<char>, Seq<char>)>,
            ErrKind,
        >(qs));
    } else {
        assert(rest2(m) =~= rest3(m));
        lemma_rfind_absent(rest2(m), '?');
        assert(m.qualifiers =~= Seq::<(Seq<char>, Seq<char>)>::empty());
        assert(spec_parse_qualifiers(rest2(m)) == Ok::<
            (Seq<char>, Seq<(Seq<char>, Seq<char>)>),
            ErrKind,
        >((rest2(m), Seq::empty())));
    }
}

/// The version step of the round trip.
proof fn lemma_rt_version(m: PurlModel)
    requires
        roundtrip_ok(m),
    ensures
        spec_parse_version(rest3(m)) == Ok::<(Seq<char>, Option<Seq<char>>), ErrKind>(
            (rest4(m), m.version),
        ),
{
    lemma_rt_inventory(m);
    lemma_delim_escaped();
    match m.version {
        Some(v) => {
            lemma_pe_absent_escaped(v, '@');
            assert(rest3(m) =~= rest4(m) + seq!['@'] + pe(v));
            lemma_rfind_marker(rest4(m), pe(v), '@');
            lemma_percent_roundtrip(v);
        },
        None => {
            assert(rest3(m) =~= rest4(m));
            lemma_rfind_absent(rest3(m), '@');
        },
    }
}

/// The type step of the round trip.
proof fn lemma_rt_type(m: PurlModel)
    requires
        roundtrip_ok(m),
    ensures
        spec_parse_type(rest4(m)) == Ok::<(Seq<char>, Seq<char>), ErrKind>((rest5(m), m.ty)),
{
    lemma_type_no_delims(m.ty);
    assert(absent(m.ty, '/'));
    lemma_find_marker(m.ty, rest5(m), '/');
    assert(lower_chars(m.ty) == m.ty);
}

/// The name and namespace steps of the round trip.
proof fn lemma_rt_name_ns(m: PurlModel)
    requires
        roundtrip_ok(m),
    ensures
        spec_parse_name(rest5(m)) == Ok::<(Seq<char>, Seq<char>), ErrKind>((rest6(m), m.name)),
        spec_parse_namespace(rest6(m)) == Ok::<(Seq<char>, Option<Seq<char>>), ErrKind>(
            (Seq::empty(), m.namespace),
        ),
{
    lemma_delim_escaped();
    let en = pe(m.name);
    lemma_pe_empty(m.name);
    lemma_percent_roundtrip(m.name);
    assert(!m.name.contains('/'));
    lemma_pe_absent_unescaped(m.name, '/');
    match m.namespace {
        None => {
            assert(rest5(m) =~= en);
            assert(rest6(m) =~= Seq::<char>::empty());
            assert(en.len() > 0 && en[0] != '/' && en[en.len() - 1] != '/');
            lemma_trim_noop(rest5(m), '/');
            lemma_rfind_absent(rest5(m), '/');
        },
        Some(ns) => {
            lemma_fmt_ns_all(ns);
            let body = rest6(m);
            assert(rest5(m) =~= body + seq!['/'] + en);
            assert(rest5(m)[0] == body[0]);
            assert(en.len() > 0);
            assert(rest5(m)[rest5(m).len() - 1] == en[en.len() - 1]);
            assert(en[en.len() - 1] != '/');
            lemma_trim_noop(rest5(m), '/');
            lemma_rfind_marker(body, en, '/');
            assert(body.len() > 0);
        },
    }
}

/// The assembly step of the round trip: normalization is a no-op on an
/// already normalized purl, and the sorted qualifiers re-insert to the
/// same list.
proof fn lemma_rt_assemble(m: PurlModel)
    requires
        roundtrip_ok(m),
    ensures
        spec_assemble(m.ty, m.name, m.namespace, m.version, m.qualifiers, m.subpath) == Ok::<
            PurlModel,
            ErrKind,
        >(m),
{
    let t = m.ty;
    let name1 = if t == crate::purl::s_bitbucket() || t == crate::purl::s_github() {
        lower_chars(m.name)
    } else if t == crate::purl::s_pypi() {
        lower_chars(replace_char(m.name, '_', '-'))
    } else {
        m.name
    };
    assert(fold_name(t, m.name) == m.name);
    if t == crate::purl::s_pypi() {
        lemma_pypi_fold_fixed(m.name);
    }
    assert(name1 == m.name);
    assert(fold_name(t, name1) == m.name);
    if m.namespace is Some {
        let ns = m.namespace->Some_0;
        assert(fold_namespace(t, ns) == ns);
    }
    let m0 = spec_new_model(t, name1);
    assert(m0.ty == t && m0.name == m.name);
    match m.subpath {
        Some(sp) => {
            crate::purl::lemma_check_subpath_ok(split_char(sp, '/'));
        },
        None => {},
    }
    let base = PurlModel {
        ty: t,
        namespace: m.namespace,
        name: m.name,
        version: m.version,
        qualifiers: Seq::empty(),
        subpath: m.subpath,
    };
    assert(Seq::<(Seq<char>, Seq<char>)>::empty() + m.qualifiers =~= m.qualifiers);
    assert(quals_wf(base.qualifiers + m.qualifiers));
    lemma_add_all_sorted(base, m.qualifiers);
    assert(PurlModel { qualifiers: base.qualifiers + m.qualifiers, ..base } =~= m);
    match m.namespace {
        Some(ns) => {
            match m.subpath {
                Some(sp) => {
                    assert(PurlModel {
                        subpath: Some(sp),
                        ..PurlModel { version: m.version, ..PurlModel {
                            namespace: Some(ns),
                            ..m0
                        } }
                    } =~= base);
                },
                None => {
                    assert((PurlModel { version: m.version, ..PurlModel {
                        namespace: Some(ns),
                        ..m0
                    } }) =~= base);
                },
            }
        },
        None => {
            match m.subpath {
                Some(sp) => {
                    assert(PurlModel { subpath: Some(sp), ..PurlModel {
                        version: m.version,
                        ..m0
                    } } =~= base);
                },
                None => {
                    assert((PurlModel { version: m.version, ..m0 }) =~= base);
                },
            }
        },
    }
}

/// Round-trip idempotence: decomposing the canonical form of a purl
/// restores the purl exactly, so formatting it again reproduces the same
/// canonical string. This holds for every well-formed purl whose name is
/// non-empty and `/`-free, whose namespace segments survive filtering,
/// and whose qualifier values are `&`-free.
pub proof fn lemma_format_parse_roundtrip(m: PurlModel)
    requires
        roundtrip_ok(m),
    ensures
        spec_from_str(spec_format(m)) == Ok::<PurlModel, ErrKind>(m),
        spec_from_str(spec_format(m)) matches Ok(p) && spec_format(p) == spec_format(m),
{
    lemma_rt_scheme(m);
    lemma_rt_subpath(m);
    lemma_rt_quals(m);
    lemma_rt_version(m);
    lemma_rt_type(m);
    lemma_rt_name_ns(m);
    lemma_rt_assemble(m);
}

/// Lowercasing keeps a key valid.
proof fn lemma_lower_key_valid(k: Seq<char>)
    requires
        spec_valid_key(k),
    ensures
        spec_valid_key(lower_chars(k)),
{
    assert forall|i: int| 0 <= i < lower_chars(k).len() implies crate::validation::spec_key_char(
        #[trigger] lower_chars(k)[i],
    ) by {
        assert(crate::validation::spec_key_char(k[i]));
        assert(lower_chars(k)[i] == lower_char(k[i]));
    }
    assert(lower_chars(k)[0] == lower_char(k[0]));
}

/// Adding qualifiers touches only the qualifier list and keeps it
/// well-formed.
proof fn lemma_add_all_preserves(m: PurlModel, qs: Seq<(Seq<char>, Seq<char>)>, m2: PurlModel)
    requires
        spec_add_all(m, qs) == Ok::<PurlModel, ErrKind>(m2),
        quals_wf(m.qualifiers),
    ensures
        m2.ty == m.ty,
        m2.namespace == m.namespace,
        m2.name == m.name,
        m2.version == m.version,
        m2.subpath == m.subpath,
        quals_wf(m2.qualifiers),
    decreases qs.len(),
{
    if qs.len() == 0 {
    } else {
        let k = qs[0].0;
        let v = qs[0].1;
        assert(spec_add_qualifier(m, k, v) is Ok);
        if v.len() == 0 {
            lemma_add_all_preserves(m, qs.drop_first(), m2);
        } else {
            let mi = PurlModel { qualifiers: insert_qual(m.qualifiers, lower_chars(k), v), ..m };
            lemma_lower_key_valid(k);
            crate::purl::lemma_lower_chars_idem(k);
            crate::purl::lemma_insert_qual_wf(m.qualifiers, lower_chars(k), v);
            lemma_add_all_preserves(mi, qs.drop_first(), m2);
        }
    }
}

/// Whatever parsing returns is a well-formed purl with a non-empty name.
pub proof fn lemma_parse_wf(s: Seq<char>, m: PurlModel)
    requires
        spec_from_str(s) == Ok::<PurlModel, ErrKind>(m),
    ensures
        m.wf(),
        m.name.len() > 0,
{
    assert(spec_parse_scheme(s) is Ok);
    let s1 = spec_parse_scheme(s)->Ok_0;
    assert(spec_parse_subpath(s1) is Ok);
    let p_sub = spec_parse_subpath(s1)->Ok_0;
    assert(spec_parse_qualifiers(p_sub.0) is Ok);
    let p_q = spec_parse_qualifiers(p_sub.0)->Ok_0;
    assert(spec_parse_version(p_q.0) is Ok);
    let p_v = spec_parse_version(p_q.0)->Ok_0;
    assert(spec_parse_type(p_v.0) is Ok);
    let p_t = spec_parse_type(p_v.0)->Ok_0;
    assert(spec_parse_name(p_t.0) is Ok);
    let p_n = spec_parse_name(p_t.0)->Ok_0;
    assert(spec_parse_namespace(p_n.0) is Ok);
    let p_ns = spec_parse_namespace(p_n.0)->Ok_0;
    let ty = p_t.1;
    let name0 = p_n.1;
    let ns0 = p_ns.1;
    let ver = p_v.1;
    let quals = p_q.1;
    let sub = p_sub.1;
    assert(m == spec_assemble(ty, name0, ns0, ver, quals, sub)->Ok_0);
    // the type comes lowered out of a validated raw type
    assert(spec_valid_type(ty)) by {
        let i = find_char(p_v.0, '/')->Some_0;
        let rt = p_v.0.take(i);
        assert(spec_valid_type(rt));
        assert(ty == lower_chars(rt));
        crate::purl::lemma_lower_type_valid(rt);
    }
    crate::purl::lemma_lower_type_valid(ty);
    // the name survives decoding non-empty
    assert(name0.len() > 0) by {
        let t = trim_char(p_t.0, '/');
        let raw_name = crate::strutil::rcut_char(t, '/').1;
        assert(raw_name.len() > 0);
        crate::codec::lemma_pd_nonempty(raw_name);
    }
    let name1 = if ty == crate::purl::s_bitbucket() || ty == crate::purl::s_github() {
        lower_chars(name0)
    } else if ty == crate::purl::s_pypi() {
        lower_chars(replace_char(name0, '_', '-'))
    } else {
        name0
    };
    assert(name1.len() == name0.len());
    let m0 = spec_new_model(ty, name1);
    assert(m0.name.len() == name1.len());
    crate::purl::lemma_fold_name_idem(lower_chars(ty), name1);
    let ns1 = match ns0 {
        Some(n) => Some(
            if ty == crate::purl::s_bitbucket() || ty == crate::purl::s_github() {
                lower_chars(n)
            } else {
                n
            },
        ),
        None => None,
    };
    let m1 = match ns1 {
        Some(n) => PurlModel { namespace: Some(fold_namespace(m0.ty, n)), ..m0 },
        None => m0,
    };
    if ns1 is Some {
        crate::purl::lemma_fold_namespace_idem(m0.ty, ns1->Some_0);
    }
    let m2 = match ver {
        Some(v) => PurlModel { version: Some(v), ..m1 },
        None => m1,
    };
    let m3 = match sub {
        Some(sp) => PurlModel { subpath: Some(sp), ..m2 },
        None => m2,
    };
    match sub {
        Some(sp) => {
            assert(spec_check_subpath(split_char(sp, '/')) is Ok);
            crate::purl::lemma_check_subpath_ok(split_char(sp, '/'));
            assert(spec_add_all(m3, quals) == Ok::<PurlModel, ErrKind>(m));
            assert(quals_wf(m3.qualifiers));
            lemma_add_all_preserves(m3, quals, m);
        },
        None => {
            assert(spec_add_all(m2, quals) == Ok::<PurlModel, ErrKind>(m));
            assert(quals_wf(m2.qualifiers));
            lemma_add_all_preserves(m2, quals, m);
        },
    }
}

/// Parse-then-reformat stability: re-parsing the canonical form of a
/// parsed purl yields the same purl, so formatting twice is formatting
/// once. This holds whenever the parsed name is `/`-free, the parsed
/// namespace segments survive filtering, and the parsed qualifier values
/// are `&`-free.
pub proof fn lemma_reformat_stable(s: Seq<char>, m: PurlModel)
    requires
        spec_from_str(s) == Ok::<PurlModel, ErrKind>(m),
        absent(m.name, '/'),
        match m.namespace {
            Some(ns) => namespace_roundtrip_ok(ns),
            None => true,
        },
        forall|i: int, j: int|
            0 <= i < m.qualifiers.len() && 0 <= j < m.qualifiers[i].1.len()
                ==> #[trigger] m.qualifiers[i].1[j] != '&',
    ensures
        spec_from_str(spec_format(m)) == Ok::<PurlModel, ErrKind>(m),
{
    lemma_parse_wf(s, m);
    lemma_format_parse_roundtrip(m);
}

/// Sorted insertion of distinct keys commutes.
proof fn lemma_insert_comm(
    qs: Seq<(Seq<char>, Seq<char>)>,
    a: Seq<char>,
    x: Seq<char>,
    b: Seq<char>,
    y: Seq<char>,
)
    requires
        a != b,
    ensures
        insert_qual(insert_qual(qs, a, x), b, y) == insert_qual(insert_qual(qs, b, y), a, x),
    decreases qs.len(),
{
    reveal_with_fuel(insert_qual, 3);
    crate::strutil::lemma_lex_lt_total(a, b);
    if qs.len() == 0 {
        assert(insert_qual(qs, a, x) =~= seq![(a, x)]);
        assert(insert_qual(qs, b, y) =~= seq![(b, y)]);
        if lex_lt(a, b) {
            assert(insert_qual(seq![(a, x)], b, y) =~= seq![(a, x)] + seq![(b, y)]);
            assert(insert_qual(seq![(b, y)], a, x) =~= seq![(a, x)] + seq![(b, y)]);
        } else {
            assert(insert_qual(seq![(a, x)], b, y) =~= seq![(b, y)] + seq![(a, x)]);
            assert(insert_qual(seq![(b, y)], a, x) =~= seq![(b, y)] + seq![(a, x)]);
        }
    } else {
        let h = qs[0];
        let hk = h.0;
        let rest = qs.drop_first();
        crate::strutil::lemma_lex_lt_total(a, hk);
        crate::strutil::lemma_lex_lt_total(b, hk);
        if lex_lt(a, hk) && lex_lt(b, hk) {
            let ia = seq![(a, x)] + qs;
            let ib = seq![(b, y)] + qs;
            assert(insert_qual(qs, a, x) == ia);
            assert(insert_qual(qs, b, y) == ib);
            assert(ia[0] == (a, x) && ia.len() > 0);
            assert(ib[0] == (b, y) && ib.len() > 0);
            if lex_lt(a, b) {
                assert(insert_qual(ia, b, y) =~= seq![(a, x)] + (seq![(b, y)] + qs)) by {
                    assert(ia.drop_first() =~= qs);
                }
                assert(insert_qual(ib, a, x) =~= seq![(a, x)] + (seq![(b, y)] + qs));
            } else {
                assert(insert_qual(ib, a, x) =~= seq![(b, y)] + (seq![(a, x)] + qs)) by {
                    assert(ib.drop_first() =~= qs);
                }
                assert(insert_qual(ia, b, y) =~= seq![(b, y)] + (seq![(a, x)] + qs));
            }
        } else if lex_lt(a, hk) && b == hk {
            // a < hk == b
            let ia = seq![(a, x)] + qs;
            assert(insert_qual(qs, a, x) == ia);
            assert(ia[0] == (a, x) && ia.drop_first() =~= qs);
            assert(insert_qual(ia, b, y) =~= seq![(a, x)] + (seq![(b, y)] + rest));
            let ib = seq![(b, y)] + rest;
            assert(insert_qual(qs, b, y) == ib);
            assert(ib[0] == (b, y) && ib.len() > 0);
            assert(insert_qual(ib, a, x) =~= seq![(a, x)] + (seq![(b, y)] + rest));
        } else if a == hk && lex_lt(b, hk) {
            let ib = seq![(b, y)] + qs;
            assert(insert_qual(qs, b, y) == ib);
            assert(ib[0] == (b, y) && ib.drop_first() =~= qs);
            assert(insert_qual(ib, a, x) =~= seq![(b, y)] + (seq![(a, x)] + rest));
            let ia = seq![(a, x)] + rest;
            assert(insert_qual(qs, a, x) == ia);
            assert(ia[0] == (a, x) && ia.len() > 0);
            assert(insert_qual(ia, b, y) =~= seq![(b, y)] + (seq![(a, x)] + rest));
        } else if lex_lt(a, hk) && lex_lt(hk, b) {
            crate::strutil::lemma_lex_lt_trans(a, hk, b);
            let ia = seq![(a, x)] + qs;
            assert(insert_qual(qs, a, x) == ia);
            assert(ia[0] == (a, x) && ia.drop_first() =~= qs);
            assert(insert_qual(ia, b, y) =~= seq![(a, x)] + (seq![h] + insert_qual(rest, b, y)));
            let ib = seq![h] + insert_qual(rest, b, y);
            assert(insert_qual(qs, b, y) == ib);
            assert(ib[0] == h && ib.len() > 0);
            assert(insert_qual(ib, a, x) =~= seq![(a, x)] + (seq![h] + insert_qual(rest, b, y)));
        } else if lex_lt(b, hk) && lex_lt(hk, a) {
            crate::strutil::lemma_lex_lt_trans(b, hk, a);
            let ib = seq![(b, y)] + qs;
            assert(insert_qual(qs, b, y) == ib);
            assert(ib[0] == (b, y) && ib.drop_first() =~= qs);
            assert(insert_qual(ib, a, x) =~= seq![(b, y)] + (seq![h] + insert_qual(rest, a, x)));
            let ia = seq![h] + insert_qual(rest, a, x);
            assert(insert_qual(qs, a, x) == ia);
            assert(ia[0] == h && ia.len() > 0);
            assert(insert_qual(ia, b, y) =~= seq![(b, y)] + (seq![h] + insert_qual(rest, a, x)));
        } else if a == hk && lex_lt(hk, b) {
            let ia = seq![(a, x)] + rest;
            assert(insert_qual(qs, a, x) == ia);
            assert(ia[0] == (a, x) && ia.drop_first() =~= rest);
            assert(insert_qual(ia, b, y) =~= seq![(a, x)] + insert_qual(rest, b, y));
            let ib = seq![h] + insert_qual(rest, b, y);
            assert(insert_qual(qs, b, y) == ib);
            assert(ib[0] == h && ib.drop_first() =~= insert_qual(rest, b, y));
            assert(insert_qual(ib, a, x) =~= seq![(a, x)] + insert_qual(rest, b, y));
        } else if b == hk && lex_lt(hk, a) {
            let ib = seq![(b, y)] + rest;
            assert(insert_qual(qs, b, y) == ib);
            assert(ib[0] == (b, y) && ib.drop_first() =~= rest);
            assert(insert_qual(ib, a, x) =~= seq![(b, y)] + insert_qual(rest, a, x));
            let ia = seq![h] + insert_qual(rest, a, x);
            assert(insert_qual(qs, a, x) == ia);
            assert(ia[0] == h && ia.drop_first() =~= insert_qual(rest, a, x));
            assert(insert_qual(ia, b, y) =~= seq![(b, y)] + insert_qual(rest, a, x));
        } else {
            // both keys above the head: recurse
            assert(lex_lt(hk, a) && lex_lt(hk, b));
            lemma_insert_comm(rest, a, x, b, y);
            let ia = seq![h] + insert_qual(rest, a, x);
            let ib = seq![h] + insert_qual(rest, b, y);
            assert(insert_qual(qs, a, x) == ia);
            assert(insert_qual(qs, b, y) == ib);
            assert(ia[0] == h && ia.drop_first() =~= insert_qual(rest, a, x));
            assert(ib[0] == h && ib.drop_first() =~= insert_qual(rest, b, y));
            assert(insert_qual(ia, b, y) =~= seq![h] + insert_qual(insert_qual(rest, a, x), b, y));
            assert(insert_qual(ib, a, x) =~= seq![h] + insert_qual(insert_qual(rest, b, y), a, x));
        }
    }
}

/// Qualifier ordering determinism: two distinct qualifiers added in
/// either order build the same purl, and the formatter emits the stored
/// key-sorted list, so the canonical output never depends on insertion
/// order.
pub proof fn lemma_add_qualifier_order(
    m: PurlModel,
    k1: Seq<char>,
    v1: Seq<char>,
    k2: Seq<char>,
    v2: Seq<char>,
)
    requires
        spec_valid_key(k1),
        spec_valid_key(k2),
        lower_chars(k1) != lower_chars(k2),
        v1.len() > 0,
        v2.len() > 0,
    ensures
        spec_add_qualifier(spec_add_qualifier(m, k1, v1)->Ok_0, k2, v2) == spec_add_qualifier(
            spec_add_qualifier(m, k2, v2)->Ok_0,
            k1,
            v1,
        ),
{
    lemma_insert_comm(m.qualifiers, lower_chars(k1), v1, lower_chars(k2), v2);
    let ma = spec_add_qualifier(m, k1, v1)->Ok_0;
    let mb = spec_add_qualifier(m, k2, v2)->Ok_0;
    assert(spec_add_qualifier(ma, k2, v2)->Ok_0 =~= spec_add_qualifier(mb, k1, v1)->Ok_0);
}

/// Insignificant slashes: a purl with an extra `/` directly after the
/// scheme decomposes exactly as the purl without it.
pub proof fn lemma_insignificant_slashes(s: Seq<char>)
    ensures
        spec_from_str(seq!['p', 'k', 'g', ':', '/'] + s) == spec_from_str(
            seq!['p', 'k', 'g', ':'] + s,
        ),
{
    let pkg3: Seq<char> = seq!['p', 'k', 'g'];
    let with_slash = seq!['p', 'k', 'g', ':', '/'] + s;
    let without = seq!['p', 'k', 'g', ':'] + s;
    assert(with_slash =~= pkg3 + seq![':'] + (seq!['/'] + s));
    assert(without =~= pkg3 + seq![':'] + s);
    lemma_find_marker(pkg3, seq!['/'] + s, ':');
    lemma_find_marker(pkg3, s, ':');
    assert(lower_chars(pkg3) =~= pkg_chars());
    assert((seq!['/'] + s)[0] == '/');
    assert((seq!['/'] + s).drop_first() =~= s);
    assert(trim_start_char(seq!['/'] + s, '/') == trim_start_char(s, '/'));
    assert(spec_parse_scheme(with_slash) == spec_parse_scheme(without));
}

} // verus!



