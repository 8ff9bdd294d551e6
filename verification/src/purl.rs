//! The purl value type: validated fields, validating constructors and
//! mutators, and the canonical formatter.

use crate::codec::{pe, percent_encode};
use crate::errors::{ErrKind, Error};
use crate::parser;
use crate::parser::{kept_segments, qual_pairs_view, spec_parse_name, spec_parse_namespace,
    spec_parse_qualifiers, spec_parse_scheme, spec_parse_subpath, spec_parse_type,
    spec_parse_version};
use crate::strutil::{eq_str, find_in, join_char, lemma_find_char, lemma_join_push,
    lemma_lex_lt_total, lemma_lex_lt_trans, lex_lt, lower_char, lower_chars, push_char,
    replace_char, split_char, str_lt, to_lower};
use crate::validation::{is_qualifier_key_valid, is_subpath_segment_valid, is_type_valid,
    spec_valid_key, spec_valid_subpath_segment, spec_valid_type};
use vstd::prelude::*;
use vstd::string::*;

verus! {

/// The mathematical model of a purl: its six fields as character
/// sequences.
#[verifier::ext_equal]
pub struct PurlModel {
    pub ty: Seq<char>,
    pub namespace: Option<Seq<char>>,
    pub name: Seq<char>,
    pub version: Option<Seq<char>>,
    pub qualifiers: Seq<(Seq<char>, Seq<char>)>,
    pub subpath: Option<Seq<char>>,
}

// --- ecosystem names with type-specific normalization ---
pub open spec fn s_bitbucket() -> Seq<char> {
    seq!['b', 'i', 't', 'b', 'u', 'c', 'k', 'e', 't']
}

pub open spec fn s_deb() -> Seq<char> {
    seq!['d', 'e', 'b']
}

pub open spec fn s_github() -> Seq<char> {
    seq!['g', 'i', 't', 'h', 'u', 'b']
}

pub open spec fn s_golang() -> Seq<char> {
    seq!['g', 'o', 'l', 'a', 'n', 'g']
}

pub open spec fn s_hex() -> Seq<char> {
    seq!['h', 'e', 'x']
}

pub open spec fn s_npm() -> Seq<char> {
    seq!['n', 'p', 'm']
}

pub open spec fn s_pypi() -> Seq<char> {
    seq!['p', 'y', 'p', 'i']
}

pub open spec fn s_rpm() -> Seq<char> {
    seq!['r', 'p', 'm']
}

/// Types whose package names are case-insensitive: the name is
/// lowercased on construction.
pub open spec fn name_folds(ty: Seq<char>) -> bool {
    ty == s_bitbucket() || ty == s_deb() || ty == s_github() || ty == s_hex() || ty == s_npm()
        || ty == s_pypi()
}

/// The type-specific normalization of a name: lowercasing for the
/// case-insensitive ecosystems, with underscores becoming hyphens for
/// `pypi`.
pub open spec fn fold_name(ty: Seq<char>, name: Seq<char>) -> Seq<char> {
    if ty == s_pypi() {
        replace_char(lower_chars(name), '_', '-')
    } else if name_folds(ty) {
        lower_chars(name)
    } else {
        name
    }
}

/// Types whose namespaces are case-insensitive.
pub open spec fn ns_folds(ty: Seq<char>) -> bool {
    ty == s_bitbucket() || ty == s_deb() || ty == s_github() || ty == s_golang() || ty == s_hex()
        || ty == s_rpm()
}

/// The type-specific normalization of a namespace.
pub open spec fn fold_namespace(ty: Seq<char>, ns: Seq<char>) -> Seq<char> {
    if ns_folds(ty) {
        lower_chars(ns)
    } else {
        ns
    }
}

/// A well-formed qualifier entry: a valid, lowercase key and a non-empty
/// value.
pub open spec fn qual_entry_wf(p: (Seq<char>, Seq<char>)) -> bool {
    &&& spec_valid_key(p.0)
    &&& lower_chars(p.0) == p.0
    &&& p.1.len() > 0
}

/// Well-formed qualifiers: every entry well-formed and the keys strictly
/// increasing in lexicographic order (so unique).
pub open spec fn quals_wf(qs: Seq<(Seq<char>, Seq<char>)>) -> bool {
    &&& forall|i: int| 0 <= i < qs.len() ==> qual_entry_wf(#[trigger] qs[i])
    &&& forall|i: int, j: int|
        0 <= i < j < qs.len() ==> lex_lt(#[trigger] qs[i].0, #[trigger] qs[j].0)
}

/// A well-formed subpath: every `/`-separated segment valid.
pub open spec fn subpath_wf(sp: Seq<char>) -> bool {
    forall|i: int|
        0 <= i < split_char(sp, '/').len() ==> spec_valid_subpath_segment(
            #[trigger] split_char(sp, '/')[i],
        )
}

impl PurlModel {
    /// The invariants every live purl keeps: a valid, lowercase type;
    /// type-specific normalization already applied to name and namespace;
    /// well-formed qualifiers; a well-formed subpath.
    pub open spec fn wf(self) -> bool {
        &&& spec_valid_type(self.ty)
        &&& lower_chars(self.ty) == self.ty
        &&& fold_name(self.ty, self.name) == self.name
        &&& match self.namespace {
            Some(ns) => fold_namespace(self.ty, ns) == ns,
            None => true,
        }
        &&& quals_wf(self.qualifiers)
        &&& match self.subpath {
            Some(sp) => subpath_wf(sp),
            None => true,
        }
    }
}

/// A Package URL: the canonical in-memory representation of a purl.
#[derive(Debug, Clone)]
pub struct PackageUrl {
    ty: String,
    namespace: Option<String>,
    name: String,
    version: Option<String>,
    qualifiers: Vec<(String, String)>,
    subpath: Option<String>,
}

impl View for PackageUrl {
    type V = PurlModel;

    closed spec fn view(&self) -> PurlModel {
        PurlModel {
            ty: self.ty@,
            namespace: self.namespace.deep_view(),
            name: self.name@,
            version: self.version.deep_view(),
            qualifiers: qual_pairs_view(self.qualifiers@),
            subpath: self.subpath.deep_view(),
        }
    }
}

// --- normalization helpers and their laws ---
pub proof fn lemma_lower_chars_idem(s: Seq<char>)
    ensures
        lower_chars(lower_chars(s)) == lower_chars(s),
{
    assert forall|i: int| 0 <= i < s.len() implies lower_char(lower_char(s[i])) == lower_char(
        s[i],
    ) by {}
    assert(lower_chars(lower_chars(s)) =~= lower_chars(s));
}

pub proof fn lemma_fold_name_idem(ty: Seq<char>, name: Seq<char>)
    ensures
        fold_name(ty, fold_name(ty, name)) == fold_name(ty, name),
{
    if ty == s_pypi() {
        let f = replace_char(lower_chars(name), '_', '-');
        assert(fold_name(ty, f) =~= f);
    } else if name_folds(ty) {
        lemma_lower_chars_idem(name);
    }
}

pub proof fn lemma_fold_namespace_idem(ty: Seq<char>, ns: Seq<char>)
    ensures
        fold_namespace(ty, fold_namespace(ty, ns)) == fold_namespace(ty, ns),
{
    if ns_folds(ty) {
        lemma_lower_chars_idem(ns);
    }
}

pub proof fn lemma_lower_type_valid(t: Seq<char>)
    requires
        spec_valid_type(t),
    ensures
        spec_valid_type(lower_chars(t)),
        lower_chars(lower_chars(t)) == lower_chars(t),
{
    lemma_lower_chars_idem(t);
}

/// Compare the type against an ecosystem literal.
fn ty_is(ty: &str, lit: &str) -> (r: bool)
    ensures
        r == (ty@ == lit@),
{
    eq_str(ty, lit)
}

/// The name folded as the type prescribes.
fn apply_name_fold(ty: &str, name: &str) -> (r: String)
    ensures
        r@ == fold_name(ty@, name@),
{
    proof {
        reveal_strlit("pypi");
        reveal_strlit("bitbucket");
        reveal_strlit("deb");
        reveal_strlit("github");
        reveal_strlit("hex");
        reveal_strlit("npm");
        assert("pypi"@ =~= s_pypi());
        assert("bitbucket"@ =~= s_bitbucket());
        assert("deb"@ =~= s_deb());
        assert("github"@ =~= s_github());
        assert("hex"@ =~= s_hex());
        assert("npm"@ =~= s_npm());
    }
    if ty_is(ty, "pypi") {
        let low = to_lower(name);
        replace_matching(low.as_str(), '_', '-')
    } else if ty_is(ty, "bitbucket") || ty_is(ty, "deb") || ty_is(ty, "github") || ty_is(ty, "hex")
        || ty_is(ty, "npm") {
        to_lower(name)
    } else {
        String::from_str(name)
    }
}

/// Every `from` replaced by `to`.
fn replace_matching(s: &str, from: char, to: char) -> (r: String)
    ensures
        r@ == replace_char(s@, from, to),
{
    let n = s.unicode_len();
    let mut out = String::new();
    let mut i: usize = 0;
    proof {
        assert(out@ =~= replace_char(s@.take(0), from, to));
    }
    while i < n
        invariant
            n == s@.len(),
            0 <= i <= n,
            out@ == replace_char(s@.take(i as int), from, to),
        decreases n - i,
    {
        let c = s.get_char(i);
        let d = if c == from {
            to
        } else {
            c
        };
        push_char(&mut out, d);
        proof {
            assert(out@ =~= replace_char(s@.take(i + 1), from, to));
        }
        i += 1;
    }
    proof {
        assert(s@.take(n as int) =~= s@);
    }
    out
}

/// The namespace folded as the type prescribes.
fn apply_ns_fold(ty: &str, ns: &str) -> (r: String)
    ensures
        r@ == fold_namespace(ty@, ns@),
{
    proof {
        reveal_strlit("bitbucket");
        reveal_strlit("deb");
        reveal_strlit("github");
        reveal_strlit("golang");
        reveal_strlit("hex");
        reveal_strlit("rpm");
        assert("bitbucket"@ =~= s_bitbucket());
        assert("deb"@ =~= s_deb());
        assert("github"@ =~= s_github());
        assert("golang"@ =~= s_golang());
        assert("hex"@ =~= s_hex());
        assert("rpm"@ =~= s_rpm());
    }
    if ty_is(ty, "bitbucket") || ty_is(ty, "deb") || ty_is(ty, "github") || ty_is(ty, "golang")
        || ty_is(ty, "hex") || ty_is(ty, "rpm") {
        to_lower(ns)
    } else {
        String::from_str(ns)
    }
}

/// The model a fresh purl has: the lowercased type, the folded name, and
/// nothing else.
pub open spec fn spec_new_model(ty: Seq<char>, name: Seq<char>) -> PurlModel {
    PurlModel {
        ty: lower_chars(ty),
        namespace: None,
        name: fold_name(lower_chars(ty), name),
        version: None,
        qualifiers: Seq::empty(),
        subpath: None,
    }
}

/// Checking every segment of a prospective subpath, left to right: `Err`
/// carries the first invalid segment.
pub open spec fn spec_check_subpath(segs: Seq<Seq<char>>) -> Result<(), Seq<char>>
    decreases segs.len(),
{
    if segs.len() == 0 {
        Ok(())
    } else if !spec_valid_subpath_segment(segs[0]) {
        Err(segs[0])
    } else {
        spec_check_subpath(segs.drop_first())
    }
}

pub proof fn lemma_check_subpath_ok(segs: Seq<Seq<char>>)
    ensures
        (spec_check_subpath(segs) is Ok) <==> (forall|i: int|
            0 <= i < segs.len() ==> spec_valid_subpath_segment(#[trigger] segs[i])),
    decreases segs.len(),
{
    if segs.len() > 0 {
        lemma_check_subpath_ok(segs.drop_first());
        if spec_valid_subpath_segment(segs[0]) && spec_check_subpath(segs.drop_first()) is Ok {
            assert forall|i: int| 0 <= i < segs.len() implies spec_valid_subpath_segment(
                #[trigger] segs[i],
            ) by {
                if i > 0 {
                    assert(segs[i] == segs.drop_first()[i - 1]);
                }
            }
        }
        if !(spec_check_subpath(segs) is Ok) && spec_valid_subpath_segment(segs[0]) {
            let j = choose|j: int|
                0 <= j < segs.drop_first().len() && !spec_valid_subpath_segment(
                    #[trigger] segs.drop_first()[j],
                );
            assert(segs[j + 1] == segs.drop_first()[j]);
        }
    }
}

proof fn lemma_check_subpath_concat(a: Seq<Seq<char>>, b: Seq<Seq<char>>)
    ensures
        spec_check_subpath(a + b) == (match spec_check_subpath(a) {
            Ok(_) => spec_check_subpath(b),
            Err(bad) => Err(bad),
        }),
    decreases a.len(),
{
    if a.len() == 0 {
        assert(a + b =~= b);
    } else {
        assert((a + b)[0] == a[0]);
        assert((a + b).len() > 0);
        assert((a + b).drop_first() =~= a.drop_first() + b);
        lemma_check_subpath_concat(a.drop_first(), b);
    }
}

/// Insert a qualifier into a key-sorted list, replacing the entry of an
/// equal key.
pub open spec fn insert_qual(
    qs: Seq<(Seq<char>, Seq<char>)>,
    k: Seq<char>,
    v: Seq<char>,
) -> Seq<(Seq<char>, Seq<char>)>
    decreases qs.len(),
{
    if qs.len() == 0 {
        seq![(k, v)]
    } else if lex_lt(k, qs[0].0) {
        seq![(k, v)] + qs
    } else if k == qs[0].0 {
        seq![(k, v)] + qs.drop_first()
    } else {
        seq![qs[0]] + insert_qual(qs.drop_first(), k, v)
    }
}

/// What adding one qualifier does: an invalid key fails, an empty value
/// is dropped, anything else is inserted under the lowercased key.
pub open spec fn spec_add_qualifier(m: PurlModel, k: Seq<char>, v: Seq<char>) -> Result<
    PurlModel,
    ErrKind,
> {
    if !spec_valid_key(k) {
        Err(ErrKind::InvalidKey(k))
    } else if v.len() == 0 {
        Ok(m)
    } else {
        Ok(PurlModel { qualifiers: insert_qual(m.qualifiers, lower_chars(k), v), ..m })
    }
}

/// Sorted insertion at the scan position: the position where every
/// earlier key is below `k` and the key there, if any, is not.
proof fn lemma_insert_qual_at(qs: Seq<(Seq<char>, Seq<char>)>, k: Seq<char>, v: Seq<char>, i: int)
    requires
        0 <= i <= qs.len(),
        forall|j: int| 0 <= j < i ==> lex_lt(#[trigger] qs[j].0, k),
        i < qs.len() ==> !lex_lt(qs[i].0, k),
    ensures
        insert_qual(qs, k, v) == if i < qs.len() && qs[i].0 == k {
            qs.take(i).push((k, v)) + qs.skip(i + 1)
        } else {
            qs.take(i).push((k, v)) + qs.skip(i)
        },
    decreases qs.len(),
{
    reveal_with_fuel(insert_qual, 2);
    if qs.len() == 0 {
        assert(qs.take(0).push((k, v)) + qs.skip(0) =~= seq![(k, v)]);
    } else if i == 0 {
        lemma_lex_lt_total(k, qs[0].0);
        if qs[0].0 == k {
            assert(qs.take(0).push((k, v)) + qs.skip(1) =~= seq![(k, v)] + qs.drop_first());
        } else {
            assert(lex_lt(k, qs[0].0));
            assert(qs.take(0).push((k, v)) + qs.skip(0) =~= seq![(k, v)] + qs);
        }
    } else {
        // qs[0].0 < k, so neither k < qs[0].0 nor k == qs[0].0
        assert(lex_lt(qs[0].0, k));
        lemma_lex_lt_total(k, qs[0].0);
        let rest = qs.drop_first();
        assert(forall|j: int| 0 <= j < i - 1 ==> lex_lt(#[trigger] rest[j].0, k));
        lemma_insert_qual_at(rest, k, v, i - 1);
        if i < qs.len() && qs[i].0 == k {
            assert(rest[i - 1].0 == k);
            assert(qs.take(i).push((k, v)) + qs.skip(i + 1) =~= seq![qs[0]] + (rest.take(
                i - 1,
            ).push((k, v)) + rest.skip(i)));
        } else {
            assert(qs.take(i).push((k, v)) + qs.skip(i) =~= seq![qs[0]] + (rest.take(i - 1).push(
                (k, v),
            ) + rest.skip(i - 1)));
        }
    }
}

/// Inserting into well-formed qualifiers keeps them well-formed.
pub proof fn lemma_insert_qual_wf(qs: Seq<(Seq<char>, Seq<char>)>, k: Seq<char>, v: Seq<char>)
    requires
        quals_wf(qs),
        spec_valid_key(k),
        lower_chars(k) == k,
        v.len() > 0,
    ensures
        quals_wf(insert_qual(qs, k, v)),
    decreases qs.len(),
{
    reveal_with_fuel(insert_qual, 2);
    if qs.len() == 0 {
        let r = insert_qual(qs, k, v);
        assert(r =~= seq![(k, v)]);
        assert(quals_wf(r));
    } else if lex_lt(k, qs[0].0) {
        let r = seq![(k, v)] + qs;
        assert forall|i: int, j: int| 0 <= i < j < r.len() implies lex_lt(
            #[trigger] r[i].0,
            #[trigger] r[j].0,
        ) by {
            if i == 0 {
                if j > 1 {
                    lemma_lex_lt_trans(k, qs[0].0, qs[j - 1].0);
                }
            }
        }
        assert(forall|i: int| 0 <= i < r.len() ==> qual_entry_wf(#[trigger] r[i]));
        assert(quals_wf(r));
    } else if k == qs[0].0 {
        let r = seq![(k, v)] + qs.drop_first();
        assert forall|i: int, j: int| 0 <= i < j < r.len() implies lex_lt(
            #[trigger] r[i].0,
            #[trigger] r[j].0,
        ) by {
            if i == 0 {
                assert(r[j].0 == qs[j].0);
                assert(lex_lt(qs[0].0, qs[j].0));
            } else {
                assert(r[i].0 == qs[i].0 && r[j].0 == qs[j].0);
            }
        }
        assert(forall|i: int| 0 <= i < r.len() ==> qual_entry_wf(#[trigger] r[i]));
        assert(quals_wf(r));
    } else {
        lemma_lex_lt_total(k, qs[0].0);
        assert(lex_lt(qs[0].0, k));
        assert(quals_wf(qs.drop_first())) by {
            assert(forall|i: int|
                0 <= i < qs.drop_first().len() ==> #[trigger] qs.drop_first()[i] == qs[i + 1]);
        }
        lemma_insert_qual_wf(qs.drop_first(), k, v);
        let rr = insert_qual(qs.drop_first(), k, v);
        let r = seq![qs[0]] + rr;
        // every key in the inserted tail is either k or a tail key, both above qs[0].0
        lemma_insert_qual_keys(qs.drop_first(), k, v);
        assert forall|i: int, j: int| 0 <= i < j < r.len() implies lex_lt(
            #[trigger] r[i].0,
            #[trigger] r[j].0,
        ) by {
            if i == 0 {
                assert(r[j] == rr[j - 1]);
                if rr[j - 1].0 == k {
                } else {
                    let w = choose|w: int|
                        0 <= w < qs.drop_first().len() && #[trigger] qs.drop_first()[w] == rr[j
                            - 1];
                    assert(qs.drop_first()[w] == qs[w + 1]);
                    assert(lex_lt(qs[0].0, qs[w + 1].0));
                }
            } else {
                assert(r[i] == rr[i - 1] && r[j] == rr[j - 1]);
            }
        }
        assert(forall|i: int| 0 <= i < r.len() ==> qual_entry_wf(#[trigger] r[i]));
        assert(quals_wf(r));
    }
}

/// Every entry of an insertion result is the new pair or one of the old
/// entries.
proof fn lemma_insert_qual_keys(qs: Seq<(Seq<char>, Seq<char>)>, k: Seq<char>, v: Seq<char>)
    ensures
        forall|i: int|
            0 <= i < insert_qual(qs, k, v).len() ==> (#[trigger] insert_qual(qs, k, v)[i] == (k, v)
                || exists|j: int| 0 <= j < qs.len() && insert_qual(qs, k, v)[i] == #[trigger] qs[j]),
    decreases qs.len(),
{
    reveal_with_fuel(insert_qual, 2);
    let r = insert_qual(qs, k, v);
    if qs.len() == 0 {
    } else if lex_lt(k, qs[0].0) {
        assert forall|i: int| 0 <= i < r.len() implies (#[trigger] r[i] == (k, v) || exists|j: int|
            0 <= j < qs.len() && r[i] == #[trigger] qs[j]) by {
            if i > 0 {
                assert(r[i] == qs[i - 1]);
            }
        }
    } else if k == qs[0].0 {
        assert forall|i: int| 0 <= i < r.len() implies (#[trigger] r[i] == (k, v) || exists|j: int|
            0 <= j < qs.len() && r[i] == #[trigger] qs[j]) by {
            if i > 0 {
                assert(r[i] == qs[i]);
            }
        }
    } else {
        lemma_insert_qual_keys(qs.drop_first(), k, v);
        let rr = insert_qual(qs.drop_first(), k, v);
        assert forall|i: int| 0 <= i < r.len() implies (#[trigger] r[i] == (k, v) || exists|j: int|
            0 <= j < qs.len() && r[i] == #[trigger] qs[j]) by {
            if i == 0 {
                assert(r[0] == qs[0]);
            } else {
                assert(r[i] == rr[i - 1]);
                if rr[i - 1] == (k, v) {
                } else {
                    let w = choose|w: int|
                        0 <= w < qs.drop_first().len() && rr[i - 1] == #[trigger] qs.drop_first()[w];
                    assert(qs.drop_first()[w] == qs[w + 1]);
                }
            }
        }
    }
}

// --- the canonical formatter's model ---
/// Namespace emission: each segment percent-encoded and followed by `/`.
pub open spec fn fmt_ns_segs(segs: Seq<Seq<char>>) -> Seq<char>
    decreases segs.len(),
{
    if segs.len() == 0 {
        Seq::empty()
    } else {
        pe(segs[0]) + seq!['/'] + fmt_ns_segs(segs.drop_first())
    }
}

/// One qualifier as emitted: the key, `=`, and the encoded value.
pub open spec fn fmt_qual(p: (Seq<char>, Seq<char>)) -> Seq<char> {
    p.0 + seq!['='] + pe(p.1)
}

/// The qualifiers as emitted, joined with `&`.
pub open spec fn fmt_quals(qs: Seq<(Seq<char>, Seq<char>)>) -> Seq<char> {
    join_char(qs.map(|_i: int, p: (Seq<char>, Seq<char>)| fmt_qual(p)), '&')
}

/// The subpath as emitted: surviving segments percent-encoded, joined
/// with `/`.
pub open spec fn fmt_subpath(sp: Seq<char>) -> Seq<char> {
    join_char(kept_segments(split_char(sp, '/')).map(|_i: int, g: Seq<char>| pe(g)), '/')
}

/// The canonical string form of a purl.
pub open spec fn spec_format(m: PurlModel) -> Seq<char> {
    seq!['p', 'k', 'g', ':'] + m.ty + seq!['/'] + (match m.namespace {
        Some(ns) => fmt_ns_segs(split_char(ns, '/')),
        None => Seq::<char>::empty(),
    }) + pe(m.name) + (match m.version {
        Some(v) => seq!['@'] + pe(v),
        None => Seq::<char>::empty(),
    }) + (if m.qualifiers.len() > 0 {
        seq!['?'] + fmt_quals(m.qualifiers)
    } else {
        Seq::<char>::empty()
    }) + (match m.subpath {
        Some(sp) => seq!['#'] + fmt_subpath(sp),
        None => Seq::<char>::empty(),
    })
}

proof fn lemma_fmt_ns_push(segs: Seq<Seq<char>>, g: Seq<char>)
    ensures
        fmt_ns_segs(segs.push(g)) == fmt_ns_segs(segs) + pe(g) + seq!['/'],
    decreases segs.len(),
{
    reveal_with_fuel(fmt_ns_segs, 3);
    if segs.len() == 0 {
        assert(segs.push(g)[0] == g);
        assert(segs.push(g).drop_first() =~= Seq::<Seq<char>>::empty());
        assert(fmt_ns_segs(segs.push(g)) =~= fmt_ns_segs(segs) + pe(g) + seq!['/']);
    } else {
        assert(segs.push(g)[0] == segs[0]);
        assert(segs.push(g).drop_first() =~= segs.drop_first().push(g));
        lemma_fmt_ns_push(segs.drop_first(), g);
        assert(fmt_ns_segs(segs.push(g)) =~= fmt_ns_segs(segs) + pe(g) + seq!['/']);
    }
}

proof fn lemma_fmt_quals_push(qs: Seq<(Seq<char>, Seq<char>)>, p: (Seq<char>, Seq<char>))
    ensures
        fmt_quals(qs.push(p)) == if qs.len() == 0 {
            fmt_qual(p)
        } else {
            fmt_quals(qs) + seq!['&'] + fmt_qual(p)
        },
{
    let f = |_i: int, q: (Seq<char>, Seq<char>)| fmt_qual(q);
    assert(qs.push(p).map(f) =~= qs.map(f).push(fmt_qual(p)));
    lemma_join_push(qs.map(f), fmt_qual(p), '&');
}

/// Emit the subpath segments that survive filtering, percent-encoded and
/// joined with `/`.
fn fmt_subpath_onto(sp: &str, out: &mut String)
    ensures
        final(out)@ == old(out)@ + fmt_subpath(sp@),
{
    let mut rem: &str = sp;
    let mut any = false;
    let ghost mut processed: Seq<Seq<char>> = Seq::empty();
    let ghost pemap = |_i: int, g: Seq<char>| pe(g);
    proof {
        reveal_with_fuel(join_char, 2);
        reveal_with_fuel(crate::parser::kept_segments, 2);
        assert(split_char(sp@, '/') =~= processed + split_char(rem@, '/'));
        assert(kept_segments(processed) =~= Seq::<Seq<char>>::empty());
        assert(kept_segments(processed).map(pemap) =~= Seq::<Seq<char>>::empty());
        assert(out@ =~= old(out)@ + join_char(kept_segments(processed).map(pemap), '/'));
    }
    loop
        invariant
            pemap == (|_i: int, g: Seq<char>| pe(g)),
            split_char(sp@, '/') == processed + split_char(rem@, '/'),
            out@ == old(out)@ + join_char(kept_segments(processed).map(pemap), '/'),
            any == (kept_segments(processed).len() > 0),
        decreases rem@.len(),
    {
        let m = rem.unicode_len();
        let fopt = find_in(rem, '/');
        let j_end: usize = match fopt {
            Some(j) => {
                proof {
                    lemma_find_char(rem@, '/');
                }
                j
            },
            None => m,
        };
        let seg = rem.substring_char(0, j_end);
        let ghost tail: Seq<Seq<char>> = match fopt {
            Some(j) => split_char(rem@.skip(j + 1), '/'),
            None => Seq::empty(),
        };
        proof {
            match fopt {
                Some(j) => {
                    assert(seg@ =~= rem@.take(j as int));
                    assert(split_char(rem@, '/') == seq![seg@] + tail);
                },
                None => {
                    lemma_find_char(rem@, '/');
                    assert(seg@ =~= rem@);
                    assert(split_char(rem@, '/') == seq![rem@]);
                    assert(split_char(rem@, '/') =~= seq![seg@] + tail);
                },
            }
            assert(split_char(sp@, '/') =~= (processed + seq![seg@]) + tail);
            crate::parser::lemma_kept_concat(processed, seq![seg@]);
            assert(processed.push(seg@) =~= processed + seq![seg@]);
            reveal_with_fuel(crate::parser::kept_segments, 2);
            assert(seq![seg@].drop_first() =~= Seq::<Seq<char>>::empty());
        }
        if crate::parser::is_kept(seg) {
            if any {
                push_char(out, '/');
            }
            let enc = percent_encode(seg);
            out.append(enc.as_str());
            proof {
                assert(seq![seg@] + Seq::<Seq<char>>::empty() =~= seq![seg@]);
                assert(kept_segments(seq![seg@]) =~= seq![seg@]);
                let kp = kept_segments(processed);
                assert(kept_segments(processed.push(seg@)) =~= kp.push(seg@));
                assert(kp.push(seg@).map(pemap) =~= kp.map(pemap).push(pe(seg@)));
                lemma_join_push(kp.map(pemap), pe(seg@), '/');
                if kp.len() > 0 {
                    assert(out@ =~= old(out)@ + join_char(
                        kept_segments(processed.push(seg@)).map(pemap),
                        '/',
                    ));
                } else {
                    assert(join_char(kp.map(pemap), '/') =~= Seq::<char>::empty());
                    assert(out@ =~= old(out)@ + join_char(
                        kept_segments(processed.push(seg@)).map(pemap),
                        '/',
                    ));
                }
                processed = processed.push(seg@);
            }
            any = true;
        } else {
            proof {
                assert(kept_segments(seq![seg@]) =~= Seq::<Seq<char>>::empty());
                assert(kept_segments(processed.push(seg@)) =~= kept_segments(processed));
                assert(kept_segments(processed.push(seg@)).map(pemap) =~= kept_segments(
                    processed,
                ).map(pemap));
                processed = processed.push(seg@);
            }
        }
        match fopt {
            Some(j) => {
                let next = rem.substring_char(j + 1, m);
                proof {
                    assert(next@ =~= rem@.skip(j + 1));
                    assert(split_char(sp@, '/') =~= processed + split_char(next@, '/'));
                }
                rem = next;
            },
            None => {
                proof {
                    assert(split_char(sp@, '/') =~= processed);
                }
                return ;
            },
        }
    }
}

/// Adding a list of decomposed qualifiers in order, the first failure
/// stopping the construction.
pub open spec fn spec_add_all(m: PurlModel, quals: Seq<(Seq<char>, Seq<char>)>) -> Result<
    PurlModel,
    ErrKind,
>
    decreases quals.len(),
{
    if quals.len() == 0 {
        Ok(m)
    } else {
        match spec_add_qualifier(m, quals[0].0, quals[0].1) {
            Err(e) => Err(e),
            Ok(m2) => spec_add_all(m2, quals.drop_first()),
        }
    }
}

/// Assembling a purl from its decomposed components: the type-specific
/// pre-normalization, then construction and the validating mutators.
pub open spec fn spec_assemble(
    ty: Seq<char>,
    name0: Seq<char>,
    ns0: Option<Seq<char>>,
    ver: Option<Seq<char>>,
    quals: Seq<(Seq<char>, Seq<char>)>,
    sub: Option<Seq<char>>,
) -> Result<PurlModel, ErrKind> {
    let name1 = if ty == s_bitbucket() || ty == s_github() {
        lower_chars(name0)
    } else if ty == s_pypi() {
        lower_chars(replace_char(name0, '_', '-'))
    } else {
        name0
    };
    let ns1 = match ns0 {
        Some(n) => Some(
            if ty == s_bitbucket() || ty == s_github() {
                lower_chars(n)
            } else {
                n
            },
        ),
        None => None,
    };
    if !spec_valid_type(ty) {
        Err(ErrKind::InvalidType(ty))
    } else {
        let m0 = spec_new_model(ty, name1);
        let m1 = match ns1 {
            Some(n) => PurlModel { namespace: Some(fold_namespace(m0.ty, n)), ..m0 },
            None => m0,
        };
        let m2 = match ver {
            Some(v) => PurlModel { version: Some(v), ..m1 },
            None => m1,
        };
        match sub {
            Some(sp) => match spec_check_subpath(split_char(sp, '/')) {
                Err(bad) => Err(ErrKind::InvalidSubpathSegment(bad)),
                Ok(_) => spec_add_all(PurlModel { subpath: Some(sp), ..m2 }, quals),
            },
            None => spec_add_all(m2, quals),
        }
    }
}

/// The full decomposition of a raw purl string: scheme, then the suffix
/// components right to left, then type, name and namespace, then
/// assembly.
pub open spec fn spec_from_str(s: Seq<char>) -> Result<PurlModel, ErrKind> {
    match spec_parse_scheme(s) {
        Err(e) => Err(e),
        Ok(s1) => match spec_parse_subpath(s1) {
            Err(e) => Err(e),
            Ok((s2, sub)) => match spec_parse_qualifiers(s2) {
                Err(e) => Err(e),
                Ok((s3, quals)) => match spec_parse_version(s3) {
                    Err(e) => Err(e),
                    Ok((s4, ver)) => match spec_parse_type(s4) {
                        Err(e) => Err(e),
                        Ok((s5, ty)) => match spec_parse_name(s5) {
                            Err(e) => Err(e),
                            Ok((s6, name0)) => match spec_parse_namespace(s6) {
                                Err(e) => Err(e),
                                Ok((_, ns0)) => spec_assemble(ty, name0, ns0, ver, quals, sub),
                            },
                        },
                    },
                },
            },
        },
    }
}

impl PackageUrl {
    /// Decompose a raw purl string into a Package URL, or fail with the
    /// first error the decomposition meets.
    pub fn from_str(s: &str) -> (r: Result<PackageUrl, Error>)
        ensures
            match spec_from_str(s@) {
                Ok(m) => r matches Ok(p) && p@ == m && p@.wf(),
                Err(e) => r matches Err(er) && er@ == e,
            },
    {
        let (s1, _scheme) = match parser::parse_scheme(s) {
            Ok(p) => p,
            Err(e) => {
                return Err(e);
            },
        };
        let (s2, sub) = match parser::parse_subpath(s1) {
            Ok(p) => p,
            Err(e) => {
                return Err(e);
            },
        };
        let (s3, quals) = match parser::parse_qualifiers(s2) {
            Ok(p) => p,
            Err(e) => {
                return Err(e);
            },
        };
        let (s4, ver) = match parser::parse_version(s3) {
            Ok(p) => p,
            Err(e) => {
                return Err(e);
            },
        };
        let (s5, ty) = match parser::parse_type(s4) {
            Ok(p) => p,
            Err(e) => {
                return Err(e);
            },
        };
        let (s6, name0) = match parser::parse_name(s5) {
            Ok(p) => p,
            Err(e) => {
                return Err(e);
            },
        };
        let (_rest, ns0) = match parser::parse_namespace(s6) {
            Ok(p) => p,
            Err(e) => {
                return Err(e);
            },
        };
        proof {
            reveal_strlit("bitbucket");
            reveal_strlit("github");
            reveal_strlit("pypi");
            assert("bitbucket"@ =~= s_bitbucket());
            assert("github"@ =~= s_github());
            assert("pypi"@ =~= s_pypi());
        }
        let ghost g_ty = ty@;
        let ghost g_name0 = name0@;
        let ghost g_ns0 = ns0.deep_view();
        let ghost g_ver = ver.deep_view();
        let ghost g_sub = sub.deep_view();
        let ghost g_quals = qual_pairs_view(quals@);
        proof {
            assert(spec_from_str(s@) == spec_assemble(g_ty, g_name0, g_ns0, g_ver, g_quals, g_sub));
        }
        let name1 = if eq_str(ty.as_str(), "bitbucket") || eq_str(ty.as_str(), "github") {
            to_lower(name0.as_str())
        } else if eq_str(ty.as_str(), "pypi") {
            let rep = replace_matching(name0.as_str(), '_', '-');
            to_lower(rep.as_str())
        } else {
            name0
        };
        let ns1: Option<String> = match ns0 {
            Some(nv) => Some(
                if eq_str(ty.as_str(), "bitbucket") || eq_str(ty.as_str(), "github") {
                    to_lower(nv.as_str())
                } else {
                    nv
                },
            ),
            None => None,
        };
        let ghost g_name1 = if g_ty == s_bitbucket() || g_ty == s_github() {
            lower_chars(g_name0)
        } else if g_ty == s_pypi() {
            lower_chars(replace_char(g_name0, '_', '-'))
        } else {
            g_name0
        };
        let ghost g_ns1 = match g_ns0 {
            Some(n) => Some(
                if g_ty == s_bitbucket() || g_ty == s_github() {
                    lower_chars(n)
                } else {
                    n
                },
            ),
            None => None,
        };
        proof {
            assert(name1@ == g_name1);
            assert(ns1.deep_view() == g_ns1);
        }
        let mut purl = match PackageUrl::new(ty.as_str(), name1.as_str()) {
            Ok(p) => p,
            Err(e) => {
                return Err(e);
            },
        };
        let ghost m0 = spec_new_model(g_ty, g_name1);
        proof {
            assert(purl@ =~= m0);
        }
        match &ns1 {
            Some(nv) => purl.with_namespace(nv.as_str()),
            None => {},
        }
        let ghost m1 = match g_ns1 {
            Some(n) => PurlModel { namespace: Some(fold_namespace(m0.ty, n)), ..m0 },
            None => m0,
        };
        proof {
            assert(purl@ =~= m1);
        }
        match &ver {
            Some(v) => purl.with_version(v.as_str()),
            None => {},
        }
        let ghost m2 = match g_ver {
            Some(v) => PurlModel { version: Some(v), ..m1 },
            None => m1,
        };
        proof {
            assert(purl@ =~= m2);
        }
        match &sub {
            Some(sp) => match purl.with_subpath(sp.as_str()) {
                Ok(()) => {},
                Err(e) => {
                    return Err(e);
                },
            },
            None => {},
        }
        proof {
            match g_sub {
                Some(sp) => {
                    assert(purl@ =~= PurlModel { subpath: Some(sp), ..m2 });
                    lemma_check_subpath_ok(split_char(sp, '/'));
                    assert(spec_check_subpath(split_char(sp, '/')) is Ok);
                },
                None => {
                    assert(purl@ =~= m2);
                },
            }
            assert(spec_assemble(g_ty, g_name0, g_ns0, g_ver, g_quals, g_sub) == spec_add_all(
                purl@,
                g_quals,
            ));
            assert(spec_from_str(s@) == spec_add_all(purl@, qual_pairs_view(quals@)));
            assert(qual_pairs_view(quals@).skip(0) =~= qual_pairs_view(quals@));
        }
        let nq = quals.len();
        let mut i: usize = 0;
        while i < nq
            invariant
                nq == quals.len(),
                0 <= i <= nq,
                purl@.wf(),
                spec_add_all(purl@, qual_pairs_view(quals@).skip(i as int)) == spec_from_str(s@),
            decreases nq - i,
        {
            proof {
                let qv = qual_pairs_view(quals@);
                assert(qv.skip(i as int)[0] == (quals@[i as int].0@, quals@[i as int].1@));
                assert(qv.skip(i as int).drop_first() =~= qv.skip(i + 1));
            }
            match purl.add_qualifier(quals[i].0.as_str(), quals[i].1.as_str()) {
                Ok(()) => {},
                Err(e) => {
                    return Err(e);
                },
            }
            i += 1;
        }
        proof {
            assert(qual_pairs_view(quals@).skip(nq as int) =~= Seq::<(Seq<char>, Seq<char>)>::empty());
        }
        Ok(purl)
    }
}

impl core::str::FromStr for PackageUrl {
    type Err = Error;

    fn from_str(s: &str) -> Result<PackageUrl, Error> {
        PackageUrl::from_str(s)
    }
}

impl PackageUrl {
    /// Create a new Package URL with the provided type and name.
    ///
    /// The type must satisfy the type grammar (ASCII letters, digits,
    /// `.`, `+` and `-`, no leading digit) and is lowercased; the name is
    /// folded as the type prescribes.
    pub fn new(ty: &str, name: &str) -> (r: Result<PackageUrl, Error>)
        ensures
            match r {
                Ok(p) => spec_valid_type(ty@) && p@ == spec_new_model(ty@, name@) && p@.wf(),
                Err(e) => !spec_valid_type(ty@) && e@ == ErrKind::InvalidType(ty@),
            },
    {
        if !is_type_valid(ty) {
            return Err(Error::InvalidType(String::from_str(ty)));
        }
        let low_ty = to_lower(ty);
        let folded = apply_name_fold(low_ty.as_str(), name);
        let p = PackageUrl {
            ty: low_ty,
            namespace: None,
            name: folded,
            version: None,
            qualifiers: Vec::new(),
            subpath: None,
        };
        proof {
            lemma_lower_type_valid(ty@);
            lemma_fold_name_idem(lower_chars(ty@), name@);
            assert(qual_pairs_view(p.qualifiers@) =~= Seq::<(Seq<char>, Seq<char>)>::empty());
            assert(p@ == spec_new_model(ty@, name@));
        }
        Ok(p)
    }

    /// Get the Package URL type.
    pub fn ty(&self) -> (r: &str)
        ensures
            r@ == self@.ty,
    {
        self.ty.as_str()
    }

    /// Get the optional namespace.
    pub fn namespace(&self) -> (r: Option<&str>)
        ensures
            match r {
                Some(s) => self@.namespace == Some(s@),
                None => self@.namespace is None,
            },
    {
        match &self.namespace {
            Some(s) => Some(s.as_str()),
            None => None,
        }
    }

    /// Get the package name.
    pub fn name(&self) -> (r: &str)
        ensures
            r@ == self@.name,
    {
        self.name.as_str()
    }

    /// Get the optional package version.
    pub fn version(&self) -> (r: Option<&str>)
        ensures
            match r {
                Some(s) => self@.version == Some(s@),
                None => self@.version is None,
            },
    {
        match &self.version {
            Some(s) => Some(s.as_str()),
            None => None,
        }
    }

    /// Get the package qualifiers, sorted by key.
    pub fn qualifiers(&self) -> (r: &Vec<(String, String)>)
        ensures
            qual_pairs_view(r@) == self@.qualifiers,
    {
        &self.qualifiers
    }

    /// Get the optional package subpath.
    pub fn subpath(&self) -> (r: Option<&str>)
        ensures
            match r {
                Some(s) => self@.subpath == Some(s@),
                None => self@.subpath is None,
            },
    {
        match &self.subpath {
            Some(s) => Some(s.as_str()),
            None => None,
        }
    }

    /// Assign a namespace to the package, lowercased for the
    /// case-insensitive ecosystems.
    pub fn with_namespace(&mut self, namespace: &str)
        ensures
            final(self)@ == (PurlModel {
                namespace: Some(fold_namespace(old(self)@.ty, namespace@)),
                ..old(self)@
            }),
            old(self)@.wf() ==> final(self)@.wf(),
    {
        let n = apply_ns_fold(self.ty.as_str(), namespace);
        self.namespace = Some(n);
        proof {
            lemma_fold_namespace_idem(self@.ty, namespace@);
        }
    }

    /// Clear the namespace.
    pub fn without_namespace(&mut self)
        ensures
            final(self)@ == (PurlModel { namespace: None, ..old(self)@ }),
            old(self)@.wf() ==> final(self)@.wf(),
    {
        self.namespace = None;
    }

    /// Assign a version to the package.
    pub fn with_version(&mut self, version: &str)
        ensures
            final(self)@ == (PurlModel { version: Some(version@), ..old(self)@ }),
            old(self)@.wf() ==> final(self)@.wf(),
    {
        self.version = Some(String::from_str(version));
    }

    /// Clear the version.
    pub fn without_version(&mut self)
        ensures
            final(self)@ == (PurlModel { version: None, ..old(self)@ }),
            old(self)@.wf() ==> final(self)@.wf(),
    {
        self.version = None;
    }

    /// Assign a subpath to the package. Every `/`-separated segment must
    /// be non-empty and neither `.` nor `..`, or the first offending
    /// segment is returned in the error.
    pub fn with_subpath(&mut self, subpath: &str) -> (r: Result<(), Error>)
        ensures
            match r {
                Ok(()) => subpath_wf(subpath@) && final(self)@ == (PurlModel {
                    subpath: Some(subpath@),
                    ..old(self)@
                }) && (old(self)@.wf() ==> final(self)@.wf()),
                Err(e) => !subpath_wf(subpath@) && *final(self) == *old(self) && (match
                    spec_check_subpath(split_char(subpath@, '/')) {
                    Err(bad) => e@ == ErrKind::InvalidSubpathSegment(bad),
                    Ok(_) => false,
                }),
            },
    {
        let n = subpath.unicode_len();
        let mut rem: &str = subpath;
        let ghost mut processed: Seq<Seq<char>> = Seq::empty();
        proof {
            reveal_with_fuel(spec_check_subpath, 2);
            assert(split_char(subpath@, '/') =~= processed + split_char(rem@, '/'));
            assert(spec_check_subpath(processed) == Ok::<(), Seq<char>>(()));
        }
        loop
            invariant
                *self == *old(self),
                split_char(subpath@, '/') == processed + split_char(rem@, '/'),
                spec_check_subpath(processed) == Ok::<(), Seq<char>>(()),
                forall|i: int|
                    0 <= i < processed.len() ==> spec_valid_subpath_segment(
                        #[trigger] processed[i],
                    ),
            decreases rem@.len(),
        {
            let m = rem.unicode_len();
            let fopt = find_in(rem, '/');
            let j_end: usize = match fopt {
                Some(j) => {
                    proof {
                        lemma_find_char(rem@, '/');
                    }
                    j
                },
                None => m,
            };
            let seg = rem.substring_char(0, j_end);
            let ghost tail: Seq<Seq<char>> = match fopt {
                Some(j) => split_char(rem@.skip(j + 1), '/'),
                None => Seq::empty(),
            };
            proof {
                reveal_with_fuel(spec_check_subpath, 2);
                match fopt {
                    Some(j) => {
                        assert(seg@ =~= rem@.take(j as int));
                        assert(split_char(rem@, '/') == seq![seg@] + tail);
                    },
                    None => {
                        lemma_find_char(rem@, '/');
                        assert(seg@ =~= rem@);
                        assert(split_char(rem@, '/') == seq![rem@]);
                        assert(split_char(rem@, '/') =~= seq![seg@] + tail);
                    },
                }
                assert(split_char(subpath@, '/') =~= (processed + seq![seg@]) + tail);
            }
            if !is_subpath_segment_valid(seg) {
                proof {
                    reveal_with_fuel(spec_check_subpath, 2);
                    let b = seq![seg@] + tail;
                    assert(b[0] == seg@ && b.len() > 0);
                    assert(spec_check_subpath(b) == Err::<(), Seq<char>>(seg@));
                    lemma_check_subpath_concat(processed, b);
                    assert(processed + b =~= (processed + seq![seg@]) + tail);
                    lemma_check_subpath_ok(split_char(subpath@, '/'));
                }
                return Err(Error::InvalidSubpathSegment(String::from_str(seg)));
            }
            proof {
                reveal_with_fuel(spec_check_subpath, 2);
                assert(seq![seg@].drop_first() =~= Seq::<Seq<char>>::empty());
                assert(spec_check_subpath(seq![seg@]) == Ok::<(), Seq<char>>(()));
                lemma_check_subpath_concat(processed, seq![seg@]);
                assert(processed + seq![seg@] =~= processed.push(seg@));
                processed = processed.push(seg@);
            }
            match fopt {
                Some(j) => {
                    let next = rem.substring_char(j + 1, m);
                    proof {
                        assert(next@ =~= rem@.skip(j + 1));
                        assert(split_char(subpath@, '/') =~= processed + split_char(next@, '/'));
                    }
                    rem = next;
                },
                None => {
                    proof {
                        assert(split_char(subpath@, '/') =~= processed);
                        lemma_check_subpath_ok(split_char(subpath@, '/'));
                    }
                    self.subpath = Some(String::from_str(subpath));
                    return Ok(());
                },
            }
        }
    }

    /// Clear the subpath.
    pub fn without_subpath(&mut self)
        ensures
            final(self)@ == (PurlModel { subpath: None, ..old(self)@ }),
            old(self)@.wf() ==> final(self)@.wf(),
    {
        self.subpath = None;
    }

    /// Serialize to the canonical string form.
    pub fn to_string(&self) -> (r: String)
        ensures
            r@ == spec_format(self@),
    {
        let mut out = String::from_str("pkg:");
        proof {
            reveal_strlit("pkg:");
            assert(out@ =~= seq!['p', 'k', 'g', ':']);
        }
        out.append(self.ty.as_str());
        push_char(&mut out, '/');
        let ghost head = seq!['p', 'k', 'g', ':'] + self@.ty + seq!['/'];
        proof {
            assert(out@ =~= head);
        }
        match &self.namespace {
            Some(ns) => {
                self.fmt_namespace_onto(ns.as_str(), &mut out);
            },
            None => {},
        }
        let ghost head2 = head + (match self@.namespace {
            Some(ns) => fmt_ns_segs(split_char(ns, '/')),
            None => Seq::<char>::empty(),
        });
        proof {
            assert(out@ =~= head2);
        }
        let enc_name = percent_encode(self.name.as_str());
        out.append(enc_name.as_str());
        match &self.version {
            Some(v) => {
                push_char(&mut out, '@');
                let enc_v = percent_encode(v.as_str());
                out.append(enc_v.as_str());
            },
            None => {},
        }
        let ghost head3 = head2 + pe(self@.name) + (match self@.version {
            Some(v) => seq!['@'] + pe(v),
            None => Seq::<char>::empty(),
        });
        proof {
            assert(out@ =~= head3);
        }
        if self.qualifiers.len() > 0 {
            push_char(&mut out, '?');
            self.fmt_quals_onto(&mut out);
        }
        let ghost head4 = head3 + (if self@.qualifiers.len() > 0 {
            seq!['?'] + fmt_quals(self@.qualifiers)
        } else {
            Seq::<char>::empty()
        });
        proof {
            assert(out@ =~= head4);
        }
        match &self.subpath {
            Some(sp) => {
                push_char(&mut out, '#');
                fmt_subpath_onto(sp.as_str(), &mut out);
            },
            None => {},
        }
        proof {
            assert(out@ =~= spec_format(self@));
        }
        out
    }

    /// Emit each namespace segment percent-encoded and followed by `/`.
    fn fmt_namespace_onto(&self, ns: &str, out: &mut String)
        ensures
            final(out)@ == old(out)@ + fmt_ns_segs(split_char(ns@, '/')),
    {
        let mut rem: &str = ns;
        let ghost mut processed: Seq<Seq<char>> = Seq::empty();
        proof {
            reveal_with_fuel(fmt_ns_segs, 2);
            assert(split_char(ns@, '/') =~= processed + split_char(rem@, '/'));
            assert(out@ =~= old(out)@ + fmt_ns_segs(processed));
        }
        loop
            invariant
                split_char(ns@, '/') == processed + split_char(rem@, '/'),
                out@ == old(out)@ + fmt_ns_segs(processed),
            decreases rem@.len(),
        {
            let m = rem.unicode_len();
            let fopt = find_in(rem, '/');
            let j_end: usize = match fopt {
                Some(j) => {
                    proof {
                        lemma_find_char(rem@, '/');
                    }
                    j
                },
                None => m,
            };
            let seg = rem.substring_char(0, j_end);
            let ghost tail: Seq<Seq<char>> = match fopt {
                Some(j) => split_char(rem@.skip(j + 1), '/'),
                None => Seq::empty(),
            };
            proof {
                match fopt {
                    Some(j) => {
                        assert(seg@ =~= rem@.take(j as int));
                        assert(split_char(rem@, '/') == seq![seg@] + tail);
                    },
                    None => {
                        lemma_find_char(rem@, '/');
                        assert(seg@ =~= rem@);
                        assert(split_char(rem@, '/') == seq![rem@]);
                        assert(split_char(rem@, '/') =~= seq![seg@] + tail);
                    },
                }
                assert(split_char(ns@, '/') =~= (processed + seq![seg@]) + tail);
            }
            let enc = percent_encode(seg);
            out.append(enc.as_str());
            push_char(out, '/');
            proof {
                lemma_fmt_ns_push(processed, seg@);
                assert(processed.push(seg@) =~= processed + seq![seg@]);
                assert(out@ =~= old(out)@ + fmt_ns_segs(processed.push(seg@)));
                processed = processed.push(seg@);
            }
            match fopt {
                Some(j) => {
                    let next = rem.substring_char(j + 1, m);
                    proof {
                        assert(next@ =~= rem@.skip(j + 1));
                        assert(split_char(ns@, '/') =~= processed + split_char(next@, '/'));
                    }
                    rem = next;
                },
                None => {
                    proof {
                        assert(split_char(ns@, '/') =~= processed);
                    }
                    return ;
                },
            }
        }
    }

    /// Emit `key=value` pairs, values percent-encoded, joined with `&`,
    /// in stored (key-sorted) order.
    fn fmt_quals_onto(&self, out: &mut String)
        ensures
            final(out)@ == old(out)@ + fmt_quals(self@.qualifiers),
    {
        let n = self.qualifiers.len();
        let mut i: usize = 0;
        proof {
            reveal_with_fuel(join_char, 2);
            assert(qual_pairs_view(self.qualifiers@).take(0) =~= Seq::<(Seq<char>, Seq<char>)>::empty());
            assert(fmt_quals(qual_pairs_view(self.qualifiers@).take(0)) =~= Seq::<char>::empty());
            assert(out@ =~= old(out)@ + fmt_quals(qual_pairs_view(self.qualifiers@).take(0)));
        }
        while i < n
            invariant
                n == self.qualifiers.len(),
                0 <= i <= n,
                out@ == old(out)@ + fmt_quals(qual_pairs_view(self.qualifiers@).take(i as int)),
            decreases n - i,
        {
            if i > 0 {
                push_char(out, '&');
            }
            out.append(self.qualifiers[i].0.as_str());
            push_char(out, '=');
            let enc = percent_encode(self.qualifiers[i].1.as_str());
            out.append(enc.as_str());
            proof {
                let qv = qual_pairs_view(self.qualifiers@);
                assert(qv[i as int] == (self.qualifiers@[i as int].0@, self.qualifiers@[i as int].1@));
                assert(qv.take(i + 1) =~= qv.take(i as int).push(qv[i as int]));
                lemma_fmt_quals_push(qv.take(i as int), qv[i as int]);
                assert(out@ =~= old(out)@ + fmt_quals(qv.take(i + 1)));
            }
            i += 1;
        }
        proof {
            assert(qual_pairs_view(self.qualifiers@).take(n as int) =~= qual_pairs_view(
                self.qualifiers@,
            ));
        }
    }

    /// Clear the qualifiers.
    pub fn clear_qualifiers(&mut self)
        ensures
            final(self)@ == (PurlModel { qualifiers: Seq::empty(), ..old(self)@ }),
            old(self)@.wf() ==> final(self)@.wf(),
    {
        self.qualifiers = Vec::new();
        proof {
            assert(qual_pairs_view(self.qualifiers@) =~= Seq::<(Seq<char>, Seq<char>)>::empty());
        }
    }

    /// Add a qualifier to the package: the key must satisfy the key
    /// grammar and is lowercased; an entry with an empty value is
    /// dropped; an existing entry of the same key is replaced.
    pub fn add_qualifier(&mut self, key: &str, value: &str) -> (r: Result<(), Error>)
        ensures
            match r {
                Ok(()) => spec_valid_key(key@) && Ok::<PurlModel, ErrKind>(final(self)@)
                    == spec_add_qualifier(old(self)@, key@, value@) && (old(self)@.wf()
                    ==> final(self)@.wf()),
                Err(e) => !spec_valid_key(key@) && e@ == ErrKind::InvalidKey(key@) && *final(self)
                    == *old(self),
            },
    {
        if !is_qualifier_key_valid(key) {
            return Err(Error::InvalidKey(String::from_str(key)));
        }
        if value.unicode_len() == 0 {
            return Ok(());
        }
        let k = to_lower(key);
        let v = String::from_str(value);
        let ghost qs = qual_pairs_view(self.qualifiers@);
        let mut i: usize = 0;
        let n = self.qualifiers.len();
        while i < n && str_lt(self.qualifiers[i].0.as_str(), k.as_str())
            invariant
                n == self.qualifiers.len(),
                0 <= i <= n,
                k@ == lower_chars(key@),
                qs == qual_pairs_view(self.qualifiers@),
                forall|j: int| 0 <= j < i ==> lex_lt(#[trigger] qs[j].0, k@),
            decreases n - i,
        {
            proof {
                assert(qs[i as int].0 == self.qualifiers@[i as int].0@);
            }
            i += 1;
        }
        proof {
            if i < n {
                assert(qs[i as int].0 == self.qualifiers@[i as int].0@);
            }
            if old(self)@.wf() {
                lemma_lower_chars_idem(key@);
                lemma_insert_qual_wf(qs, k@, v@);
            }
            lemma_insert_qual_at(qs, k@, v@, i as int);
        }
        if i < n && eq_str(self.qualifiers[i].0.as_str(), k.as_str()) {
            let ghost old_q = self.qualifiers@;
            self.qualifiers.remove(i);
            self.qualifiers.insert(i, (k, v));
            proof {
                assert(qual_pairs_view(self.qualifiers@) =~= qs.take(i as int).push((k@, v@))
                    + qs.skip(i + 1));
            }
        } else {
            proof {
                if i < n {
                    lemma_lex_lt_total(k@, qs[i as int].0);
                }
            }
            self.qualifiers.insert(i, (k, v));
            proof {
                assert(qual_pairs_view(self.qualifiers@) =~= qs.take(i as int).push((k@, v@))
                    + qs.skip(i as int));
            }
        }
        Ok(())
    }
}

} // verus!
