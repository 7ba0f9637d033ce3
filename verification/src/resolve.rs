//! Resolution of installed applications: joining library records against
//! the id-to-name catalog, filtering by name pattern, ordering by name,
//! and deriving compatibility-data paths.

use vstd::prelude::*;
use vstd::string::StringSliceAdditionalSpecFns;
use vstd::utf8::encode_utf8;
use vstd::utf8::valid_utf8;

use crate::library::{SpecLibrary, SteamLibraries};

verus! {

broadcast use vstd::seq_lib::group_to_multiset_ensures;

/// Model of one installed application: its id, the characters of its
/// display name, and the bytes of the root path of the library folder
/// holding it.
pub struct SpecApp {
    pub app_id: u32,
    pub app_name: Seq<char>,
    pub path: Seq<u8>,
}

/// One installed application resolved against the catalog. Applications
/// compare by display name alone; the id never participates.
#[derive(Debug)]
pub struct SteamApp {
    pub app_id: u32,
    app_name: String,
    pub path: Vec<u8>,
}

impl PartialEq for SteamApp {
    fn eq(&self, other: &Self) -> (r: bool) {
        self.app_name.eq(&other.app_name)
    }
}

impl vstd::std_specs::cmp::PartialEqSpecImpl for SteamApp {
    open spec fn obeys_eq_spec() -> bool {
        true
    }

    open spec fn eq_spec(&self, other: &Self) -> bool {
        self@.app_name == other@.app_name
    }
}

impl View for SteamApp {
    type V = SpecApp;

    closed spec fn view(&self) -> SpecApp {
        SpecApp { app_id: self.app_id, app_name: self.app_name@, path: self.path@ }
    }
}

impl SteamApp {
    /// An application record built from plain values.
    pub fn new(app_id: u32, app_name: String, path: Vec<u8>) -> (r: Self)
        ensures
            r@ == (SpecApp { app_id, app_name: app_name@, path: path@ }),
    {
        SteamApp { app_id, app_name, path }
    }

    /// The display name. Every record holds a resolved name, so this
    /// always returns one.
    pub fn app_name(&self) -> (r: Option<&str>)
        ensures
            r matches Some(n) && n@ == self@.app_name,
    {
        Some(self.app_name.as_str())
    }
}

/// An application record for `app_id` under the library root `path`,
/// provided the catalog resolved the id to a text name.
pub fn resolve_app(path: &Vec<u8>, app_id: u32, app_name: Option<String>) -> (r: Option<SteamApp>)
    ensures
        (match app_name {
            Some(n) => r matches Some(a) && a@ == (SpecApp {
                app_id,
                app_name: n@,
                path: path@,
            }),
            None => r is None,
        }),
{
    match app_name {
        Some(n) => Some(
            SteamApp { app_id, app_name: n, path: vstd::slice::slice_to_vec(path.as_slice()) },
        ),
        None => None,
    }
}

/// Declaration of the catalog tree type of the embedded key-value store.
#[verifier::external_type_specification]
#[verifier::external_body]
pub struct ExTree(sled::Tree);

/// Relies on sled::Tree::get: looks the little-endian bytes of `app_id`
/// up in the on-disk catalog. What comes back depends on the store's
/// contents, so nothing is promised of the result; a lookup error counts
/// as absent, as the caller treats it.
#[verifier::external_body]
fn catalog_get(appids: &sled::Tree, app_id: u32) -> (r: Option<Vec<u8>>) {
    match appids.get(app_id.to_le_bytes()) {
        Ok(Some(ivec)) => Some(ivec.as_ref().to_vec()),
        _ => None,
    }
}

/// Relies on String::from_utf8: succeeds exactly on valid UTF-8 and then
/// returns the string those bytes encode.
#[verifier::external_body]
fn string_from_utf8(bytes: Vec<u8>) -> (r: Option<String>)
    ensures
        r matches Some(s) ==> encode_utf8(s@) == bytes@,
        r is Some <==> valid_utf8(bytes@),
{
    String::from_utf8(bytes).ok()
}

/// `a` is somewhere among the libraries `libs`: some library has its root
/// path and holds its id.
pub open spec fn app_within(libs: Seq<SpecLibrary>, a: SpecApp) -> bool {
    exists|i: int|
        0 <= i < libs.len() && libs[i].path == a.path && libs[i].games.contains(a.app_id)
}

/// The (library root, application id) pairs of one library, in id order.
pub open spec fn pair_seq(l: SpecLibrary) -> Seq<(Seq<u8>, u32)> {
    Seq::new(l.games.len(), |j: int| (l.path, l.games[j]))
}

/// All (library root, application id) pairs across the libraries, in
/// library order.
pub open spec fn lib_pairs(libs: Seq<SpecLibrary>) -> Seq<(Seq<u8>, u32)>
    decreases libs.len(),
{
    if libs.len() == 0 {
        Seq::empty()
    } else {
        pair_seq(libs[0]) + lib_pairs(libs.drop_first())
    }
}

/// The join of the pairs with one catalog outcome per pair, in pair
/// order: a pair whose outcome is a name yields one record, a pair
/// without one yields none.
pub open spec fn spec_join(
    pairs: Seq<(Seq<u8>, u32)>,
    names: Seq<Option<Seq<char>>>,
) -> Seq<SpecApp>
    decreases pairs.len(),
{
    if pairs.len() == 0 {
        Seq::empty()
    } else {
        let rest = spec_join(pairs.drop_first(), names.drop_first());
        match names[0] {
            Some(n) => seq![SpecApp { app_id: pairs[0].1, app_name: n, path: pairs[0].0 }] + rest,
            None => rest,
        }
    }
}

/// Joining one more pair appends its records, if any.
proof fn lemma_spec_join_push(
    pairs: Seq<(Seq<u8>, u32)>,
    names: Seq<Option<Seq<char>>>,
    p: (Seq<u8>, u32),
    o: Option<Seq<char>>,
)
    requires
        pairs.len() == names.len(),
    ensures
        spec_join(pairs.push(p), names.push(o)) == spec_join(pairs, names) + (match o {
            Some(n) => seq![SpecApp { app_id: p.1, app_name: n, path: p.0 }],
            None => Seq::<SpecApp>::empty(),
        }),
    decreases pairs.len(),
{
    if pairs.len() == 0 {
        assert(pairs.push(p).drop_first() =~= pairs);
        assert(names.push(o).drop_first() =~= names);
        assert(pairs.push(p)[0] == p);
        assert(names.push(o)[0] == o);
        assert(spec_join(pairs, names) == Seq::<SpecApp>::empty());
        match o {
            Some(n) => {
                assert(spec_join(pairs.push(p), names.push(o)) =~= spec_join(pairs, names) + seq![
                    SpecApp { app_id: p.1, app_name: n, path: p.0 },
                ]);
            },
            None => {
                assert(spec_join(pairs.push(p), names.push(o)) =~= spec_join(pairs, names));
                assert(spec_join(pairs, names) + Seq::<SpecApp>::empty() =~= spec_join(
                    pairs,
                    names,
                ));
            },
        }
    } else {
        lemma_spec_join_push(pairs.drop_first(), names.drop_first(), p, o);
        assert(pairs.push(p).drop_first() =~= pairs.drop_first().push(p));
        assert(names.push(o).drop_first() =~= names.drop_first().push(o));
        assert(pairs.push(p)[0] == pairs[0]);
        assert(names.push(o)[0] == names[0]);
        let extra = (match o {
            Some(n) => seq![SpecApp { app_id: p.1, app_name: n, path: p.0 }],
            None => Seq::<SpecApp>::empty(),
        });
        match names[0] {
            Some(n0) => {
                let head = seq![SpecApp { app_id: pairs[0].1, app_name: n0, path: pairs[0].0 }];
                assert(head + (spec_join(pairs.drop_first(), names.drop_first()) + extra) =~= (head
                    + spec_join(pairs.drop_first(), names.drop_first())) + extra);
            },
            None => {},
        }
    }
}

/// A join yields at most one record per pair.
proof fn lemma_spec_join_len(pairs: Seq<(Seq<u8>, u32)>, names: Seq<Option<Seq<char>>>)
    ensures
        spec_join(pairs, names).len() <= pairs.len(),
    decreases pairs.len(),
{
    if pairs.len() != 0 {
        lemma_spec_join_len(pairs.drop_first(), names.drop_first());
    }
}

impl SteamLibraries {
    /// All applications installed in these libraries whose id the catalog
    /// resolves to a text name. An id the catalog does not know, or whose
    /// stored name is not text, is silently excluded; what the catalog
    /// answers depends on the store, so of the result this is promised:
    /// for some per-pair sequence of catalog outcomes, the records are
    /// the in-order join of the (library, id) pairs with those outcomes,
    /// at most one record per pair, and every record belongs to one of
    /// the libraries.
    pub fn apps(&self, appids: &sled::Tree) -> (r: Vec<SteamApp>)
        ensures
            forall|k: int| 0 <= k < r@.len() ==> app_within(self@, #[trigger] r@[k]@),
            r@.len() <= lib_pairs(self@).len(),
            exists|names: Seq<Option<Seq<char>>>|
                names.len() == lib_pairs(self@).len() && apps_view(r@) == spec_join(
                    lib_pairs(self@),
                    names,
                ),
    {
        let ghost all_pairs = lib_pairs(self@);
        let ghost mut done: Seq<(Seq<u8>, u32)> = Seq::empty();
        let ghost mut names: Seq<Option<Seq<char>>> = Seq::empty();
        let mut out: Vec<SteamApp> = Vec::new();
        proof {
            assert(self@.subrange(0, self@.len() as int) =~= self@);
        }
        let mut i: usize = 0;
        while i < self.libs.len()
            invariant
                i <= self.libs@.len(),
                self@.len() == self.libs@.len(),
                done.len() == names.len(),
                all_pairs == lib_pairs(self@),
                all_pairs == done + lib_pairs(self@.subrange(i as int, self@.len() as int)),
                apps_view(out@) == spec_join(done, names),
                forall|k: int| 0 <= k < out@.len() ==> app_within(self@, #[trigger] out@[k]@),
            decreases self.libs@.len() - i,
        {
            let lib = &self.libs[i];
            let ghost lib_v = self@[i as int];
            proof {
                assert(self@.subrange(i as int, self@.len() as int)[0] == lib_v);
                assert(self@.subrange(i as int, self@.len() as int).drop_first() =~= self@
                    .subrange(i + 1, self@.len() as int));
                assert(pair_seq(lib_v).subrange(0, lib_v.games.len() as int) =~= pair_seq(lib_v));
                assert(done + (pair_seq(lib_v) + lib_pairs(
                    self@.subrange(i + 1, self@.len() as int),
                )) =~= done + pair_seq(lib_v) + lib_pairs(
                    self@.subrange(i + 1, self@.len() as int),
                ));
            }
            let mut j: usize = 0;
            while j < lib.games.len()
                invariant
                    i < self.libs@.len(),
                    self@.len() == self.libs@.len(),
                    j <= lib.games@.len(),
                    lib == self.libs@[i as int],
                    lib_v == self@[i as int],
                    lib_v.games == lib.games@,
                    lib_v.path == lib.path@,
                    done.len() == names.len(),
                    all_pairs == lib_pairs(self@),
                    all_pairs == done + pair_seq(lib_v).subrange(
                        j as int,
                        lib_v.games.len() as int,
                    ) + lib_pairs(self@.subrange(i + 1, self@.len() as int)),
                    apps_view(out@) == spec_join(done, names),
                    forall|k: int| 0 <= k < out@.len() ==> app_within(self@, #[trigger] out@[k]@),
                decreases lib.games@.len() - j,
            {
                let id = lib.games[j];
                let ghost pair = (lib_v.path, id);
                let name = match catalog_get(appids, id) {
                    Some(bytes) => string_from_utf8(bytes),
                    None => None,
                };
                let ghost o = (match name {
                    Some(ref n) => Some(n@),
                    None => None::<Seq<char>>,
                });
                let ghost glen = lib_v.games.len() as int;
                proof {
                    assert(pair_seq(lib_v)[j as int] == pair);
                    assert(pair_seq(lib_v).subrange(j as int, glen)[0] == pair);
                    assert(pair_seq(lib_v).subrange(j as int, glen).drop_first() =~= pair_seq(
                        lib_v,
                    ).subrange(j + 1, glen));
                    assert(seq![pair] + pair_seq(lib_v).subrange(j + 1, glen) =~= pair_seq(lib_v)
                        .subrange(j as int, glen));
                    assert(done.push(pair) =~= done + seq![pair]);
                    assert(done + (seq![pair] + pair_seq(lib_v).subrange(j + 1, glen)) =~= done
                        + seq![pair] + pair_seq(lib_v).subrange(j + 1, glen));
                    assert((done + seq![pair] + pair_seq(lib_v).subrange(j + 1, glen)) + lib_pairs(
                        self@.subrange(i + 1, self@.len() as int),
                    ) =~= (done + seq![pair]) + (pair_seq(lib_v).subrange(j + 1, glen) + lib_pairs(
                        self@.subrange(i + 1, self@.len() as int),
                    )));
                    assert((done + pair_seq(lib_v).subrange(j as int, glen)) + lib_pairs(
                        self@.subrange(i + 1, self@.len() as int),
                    ) =~= done + (pair_seq(lib_v).subrange(j as int, glen) + lib_pairs(
                        self@.subrange(i + 1, self@.len() as int),
                    )));
                    lemma_spec_join_push(done, names, pair, o);
                }
                let ghost out_before = out@;
                match resolve_app(&lib.path, id, name) {
                    Some(app) => {
                        proof {
                            assert(lib.games@[j as int] == id);
                            assert(self@[i as int].games.contains(id));
                            assert(self@[i as int].path == app@.path);
                            assert(app_within(self@, app@));
                        }
                        out.push(app);
                        proof {
                            assert(apps_view(out@) =~= apps_view(out_before) + seq![app@]);
                        }
                    },
                    None => {},
                }
                proof {
                    done = done.push(pair);
                    names = names.push(o);
                    match o {
                        Some(n) => {},
                        None => {
                            assert(spec_join(done, names) =~= apps_view(out@));
                        },
                    }
                }
                j = j + 1;
            }
            proof {
                assert(pair_seq(lib_v).subrange(lib_v.games.len() as int, lib_v.games.len() as int)
                    =~= Seq::<(Seq<u8>, u32)>::empty());
                assert(done + Seq::<(Seq<u8>, u32)>::empty() + lib_pairs(
                    self@.subrange(i + 1, self@.len() as int),
                ) =~= done + lib_pairs(self@.subrange(i + 1, self@.len() as int)));
            }
            i = i + 1;
        }
        proof {
            assert(self@.subrange(self@.len() as int, self@.len() as int) =~= Seq::<
                SpecLibrary,
            >::empty());
            assert(done + lib_pairs(Seq::<SpecLibrary>::empty()) =~= done);
            assert(done == all_pairs);
            lemma_spec_join_len(done, names);
            assert(names.len() == lib_pairs(self@).len() && apps_view(out@) == spec_join(
                lib_pairs(self@),
                names,
            ));
        }
        out
    }
}

/// What the name pattern of a query means: whether the regular expression
/// `pattern`, compiled case-sensitively or not, matches somewhere in
/// `text`. Matching is a function of these three values alone.
pub uninterp spec fn regex_match(pattern: Seq<char>, case_sensitive: bool, text: Seq<char>) -> bool;

/// A compiled name pattern, carrying the pattern text and case flag it
/// was built from.
pub struct AppPattern {
    re: regex::Regex,
    pattern: String,
    case_sensitive: bool,
}

/// Declaration of the compiled regular expression type.
#[verifier::external_type_specification]
#[verifier::external_body]
pub struct ExRegex(regex::Regex);

impl AppPattern {
    /// The pattern text this was built from.
    pub closed spec fn spec_pattern(self) -> Seq<char> {
        self.pattern@
    }

    /// Whether matching is case-sensitive.
    pub closed spec fn spec_case_sensitive(self) -> bool {
        self.case_sensitive
    }
}

/// Whether `pattern` compiles as a regular expression under the given
/// case flag. Whether compilation succeeds is a function of these two
/// values alone.
pub uninterp spec fn pattern_compiles(pattern: Seq<char>, case_sensitive: bool) -> bool;

/// Relies on regex::RegexBuilder: builds the expression from `pattern`
/// with case sensitivity as asked, succeeding exactly when the pattern is
/// a valid regular expression, which depends on the pattern text and the
/// case flag alone and is named `pattern_compiles`.
#[verifier::external_body]
fn compile_pattern(pattern: &str, case_sensitive: bool) -> (r: Option<AppPattern>)
    ensures
        r is Some <==> pattern_compiles(pattern@, case_sensitive),
        r matches Some(p) ==> p.spec_pattern() == pattern@ && p.spec_case_sensitive()
            == case_sensitive,
{
    let re = regex::RegexBuilder::new(pattern).case_insensitive(!case_sensitive).build().ok()?;
    Some(AppPattern { re, pattern: pattern.to_string(), case_sensitive })
}

/// Relies on regex::Regex::is_match. An `AppPattern` is only ever built
/// by `compile_pattern`, so its expression was compiled from the pattern
/// text and case flag it carries, and whether it matches is a function of
/// those and the text alone, named `regex_match`.
#[verifier::external_body]
fn pattern_matches(p: &AppPattern, text: &str) -> (r: bool)
    ensures
        r == regex_match(p.spec_pattern(), p.spec_case_sensitive(), text@),
{
    p.re.is_match(text)
}

/// The models of a sequence of application records.
pub open spec fn apps_view(s: Seq<SteamApp>) -> Seq<SpecApp> {
    Seq::new(s.len(), |i: int| s[i]@)
}

/// The records whose display name the pattern matches, in input order.
pub open spec fn spec_filter_apps(apps: Seq<SpecApp>, pattern: Seq<char>, case_sensitive: bool) -> Seq<SpecApp>
    decreases apps.len(),
{
    if apps.len() == 0 {
        Seq::empty()
    } else {
        let rest = spec_filter_apps(apps.drop_first(), pattern, case_sensitive);
        if regex_match(pattern, case_sensitive, apps[0].app_name) {
            seq![apps[0]] + rest
        } else {
            rest
        }
    }
}

/// A copy of one record.
fn clone_app(a: &SteamApp) -> (r: SteamApp)
    ensures
        r@ == a@,
{
    SteamApp {
        app_id: a.app_id,
        app_name: a.app_name.clone(),
        path: vstd::slice::slice_to_vec(a.path.as_slice()),
    }
}

/// The records whose display name matches `pattern`, in input order;
/// matching is case-insensitive unless asked otherwise. Yields a result
/// exactly when the pattern compiles as a regular expression.
pub fn filter_by_pattern(apps: &Vec<SteamApp>, pattern: &str, case_sensitive: bool) -> (r: Option<
    Vec<SteamApp>,
>)
    ensures
        r is Some <==> pattern_compiles(pattern@, case_sensitive),
        r matches Some(fs) ==> apps_view(fs@) == spec_filter_apps(
            apps_view(apps@),
            pattern@,
            case_sensitive,
        ),
{
    let compiled = match compile_pattern(pattern, case_sensitive) {
        Some(p) => p,
        None => {
            return None;
        },
    };
    let ghost all = apps_view(apps@);
    let mut out: Vec<SteamApp> = Vec::new();
    proof {
        assert(all.subrange(0, all.len() as int) =~= all);
        assert(apps_view(out@) + spec_filter_apps(all, pattern@, case_sensitive) =~= spec_filter_apps(
            all,
            pattern@,
            case_sensitive,
        ));
    }
    let mut i: usize = 0;
    while i < apps.len()
        invariant
            i <= apps@.len(),
            all == apps_view(apps@),
            all.len() == apps@.len(),
            compiled.spec_pattern() == pattern@,
            compiled.spec_case_sensitive() == case_sensitive,
            spec_filter_apps(all, pattern@, case_sensitive) =~= apps_view(out@)
                + spec_filter_apps(
                all.subrange(i as int, all.len() as int),
                pattern@,
                case_sensitive,
            ),
        decreases apps@.len() - i,
    {
        let ghost suffix = all.subrange(i as int, all.len() as int);
        proof {
            assert(suffix.drop_first() =~= all.subrange(i + 1, all.len() as int));
            assert(suffix[0] == all[i as int]);
        }
        let ghost obefore = out@;
        if pattern_matches(&compiled, apps[i].app_name.as_str()) {
            out.push(clone_app(&apps[i]));
        }
        proof {
            assert(apps_view(out@) + spec_filter_apps(
                all.subrange(i + 1, all.len() as int),
                pattern@,
                case_sensitive,
            ) =~= apps_view(obefore) + spec_filter_apps(suffix, pattern@, case_sensitive));
        }
        i = i + 1;
    }
    proof {
        assert(all.subrange(all.len() as int, all.len() as int) =~= Seq::<SpecApp>::empty());
        assert(apps_view(out@) + Seq::<SpecApp>::empty() =~= apps_view(out@));
    }
    Some(out)
}

/// Byte-wise lexicographic order.
pub open spec fn bytes_le(a: Seq<u8>, b: Seq<u8>) -> bool
    decreases a.len(),
{
    if a.len() == 0 {
        true
    } else if b.len() == 0 {
        false
    } else if a[0] < b[0] {
        true
    } else if a[0] > b[0] {
        false
    } else {
        bytes_le(a.drop_first(), b.drop_first())
    }
}

/// Display-name order: byte order of the UTF-8 encodings of the names.
pub open spec fn name_le(a: SpecApp, b: SpecApp) -> bool {
    bytes_le(encode_utf8(a.app_name), encode_utf8(b.app_name))
}

/// Byte order is total.
proof fn lemma_bytes_le_total(a: Seq<u8>, b: Seq<u8>)
    ensures
        bytes_le(a, b) || bytes_le(b, a),
    decreases a.len(),
{
    if a.len() != 0 && b.len() != 0 && a[0] == b[0] {
        lemma_bytes_le_total(a.drop_first(), b.drop_first());
    }
}

/// Byte order is reflexive.
proof fn lemma_bytes_le_refl(a: Seq<u8>)
    ensures
        bytes_le(a, a),
    decreases a.len(),
{
    if a.len() != 0 {
        lemma_bytes_le_refl(a.drop_first());
    }
}

/// Byte order is transitive.
proof fn lemma_bytes_le_trans(a: Seq<u8>, b: Seq<u8>, c: Seq<u8>)
    requires
        bytes_le(a, b),
        bytes_le(b, c),
    ensures
        bytes_le(a, c),
    decreases a.len(),
{
    if a.len() != 0 && b.len() != 0 && c.len() != 0 && a[0] == b[0] && b[0] == c[0] {
        lemma_bytes_le_trans(a.drop_first(), b.drop_first(), c.drop_first());
    }
}

/// Non-decreasing by display name.
pub open spec fn sorted_by_name(s: Seq<SpecApp>) -> bool {
    forall|i: int, j: int| 0 <= i <= j < s.len() ==> name_le(s[i], s[j])
}

/// Whether `a` orders at or before `b`.
fn name_le_cmp(a: &SteamApp, b: &SteamApp) -> (r: bool)
    ensures
        r == name_le(a@, b@),
{
    let ab = a.app_name.as_str().as_bytes();
    let bb = b.app_name.as_str().as_bytes();
    let mut i: usize = 0;
    proof {
        assert(ab@.subrange(0, ab@.len() as int) =~= ab@);
        assert(bb@.subrange(0, bb@.len() as int) =~= bb@);
    }
    loop
        invariant
            i <= ab@.len(),
            i <= bb@.len(),
            ab@ == encode_utf8(a@.app_name),
            bb@ == encode_utf8(b@.app_name),
            bytes_le(ab@, bb@) == bytes_le(
                ab@.subrange(i as int, ab@.len() as int),
                bb@.subrange(i as int, bb@.len() as int),
            ),
        decreases ab@.len() - i,
    {
        let ghost sa = ab@.subrange(i as int, ab@.len() as int);
        let ghost sb = bb@.subrange(i as int, bb@.len() as int);
        proof {
            if sa.len() != 0 {
                assert(sa[0] == ab@[i as int]);
            }
            if sb.len() != 0 {
                assert(sb[0] == bb@[i as int]);
            }
        }
        if i >= ab.len() {
            return true;
        }
        if i >= bb.len() {
            return false;
        }
        if ab[i] < bb[i] {
            return true;
        }
        if ab[i] > bb[i] {
            return false;
        }
        proof {
            assert(sa.drop_first() =~= ab@.subrange(i + 1, ab@.len() as int));
            assert(sb.drop_first() =~= bb@.subrange(i + 1, bb@.len() as int));
        }
        i = i + 1;
    }
}

/// Index of a record whose name orders at or before every name in `v`.
fn min_by_name(v: &Vec<SteamApp>) -> (r: usize)
    requires
        v@.len() > 0,
    ensures
        r < v@.len(),
        forall|k: int| 0 <= k < v@.len() ==> name_le(v@[r as int]@, #[trigger] v@[k]@),
{
    let mut m: usize = 0;
    let mut k: usize = 1;
    proof {
        lemma_bytes_le_refl(encode_utf8(v@[0]@.app_name));
    }
    while k < v.len()
        invariant
            m < k <= v@.len() || (k <= v@.len() && m == 0),
            m < v@.len(),
            forall|t: int| 0 <= t < k ==> name_le(v@[m as int]@, #[trigger] v@[t]@),
        decreases v@.len() - k,
    {
        if !name_le_cmp(&v[m], &v[k]) {
            proof {
                lemma_bytes_le_total(
                    encode_utf8(v@[m as int]@.app_name),
                    encode_utf8(v@[k as int]@.app_name),
                );
                assert forall|t: int| 0 <= t < k implies name_le(
                    v@[k as int]@,
                    #[trigger] v@[t]@,
                ) by {
                    lemma_bytes_le_trans(
                        encode_utf8(v@[k as int]@.app_name),
                        encode_utf8(v@[m as int]@.app_name),
                        encode_utf8(v@[t]@.app_name),
                    );
                }
                lemma_bytes_le_refl(encode_utf8(v@[k as int]@.app_name));
            }
            m = k;
        }
        k = k + 1;
    }
    m
}

/// The same records ordered by display name, non-decreasing in byte
/// order of the names; records sharing a name keep no specified order
/// among themselves.
pub fn sort_by_name(apps: Vec<SteamApp>) -> (r: Vec<SteamApp>)
    ensures
        sorted_by_name(apps_view(r@)),
        apps_view(r@).to_multiset() == apps_view(apps@).to_multiset(),
{
    let ghost orig = apps_view(apps@);
    let mut rest = apps;
    let mut out: Vec<SteamApp> = Vec::new();
    proof {
        assert(apps_view(out@).to_multiset().add(apps_view(rest@).to_multiset()) =~= orig.to_multiset());
    }
    while rest.len() > 0
        invariant
            apps_view(out@).to_multiset().add(apps_view(rest@).to_multiset())
                == orig.to_multiset(),
            sorted_by_name(apps_view(out@)),
            forall|x: int, y: int|
                0 <= x < rest@.len() && 0 <= y < out@.len() ==> name_le(
                    #[trigger] out@[y]@,
                    #[trigger] rest@[x]@,
                ),
        decreases rest@.len(),
    {
        let m = min_by_name(&rest);
        let ghost rv = apps_view(rest@);
        let ghost ov = apps_view(out@);
        let a = rest.remove(m);
        out.push(a);
        proof {
            assert(apps_view(rest@) =~= rv.remove(m as int));
            assert(apps_view(out@) =~= ov.push(rv[m as int]));
            assert(rv.contains(rv[m as int]));
            assert(rv.remove(m as int).to_multiset() =~= rv.to_multiset().remove(rv[m as int]));
            assert(apps_view(out@).to_multiset() =~= ov.to_multiset().insert(rv[m as int]));
            assert(apps_view(out@).to_multiset().add(apps_view(rest@).to_multiset()) =~= ov.to_multiset().add(rv.to_multiset()));
            assert forall|x: int|
                0 <= x < rest@.len() implies name_le(rv[m as int], apps_view(rest@)[x]) by {
                assert(apps_view(rest@)[x] == if x < m { rv[x] } else { rv[x + 1] });
            }
        }
    }
    out
}

/// The decimal digits of `n`, most significant first.
pub open spec fn dec_digits(n: nat) -> Seq<u8>
    decreases n,
{
    if n < 10 {
        seq![(48 + n) as u8]
    } else {
        dec_digits(n / 10).push((48 + n % 10) as u8)
    }
}

/// The bytes of `/steamapps/compatdata/`.
pub open spec fn steamapps_compatdata() -> Seq<u8> {
    seq![
        47u8, 115, 116, 101, 97, 109, 97, 112, 112, 115, 47, 99, 111, 109, 112, 97, 116, 100, 97,
        116, 97, 47,
    ]
}

/// The bytes of `/pfx/drive_c`.
pub open spec fn pfx_drive_c() -> Seq<u8> {
    seq![47u8, 112, 102, 120, 47, 100, 114, 105, 118, 101, 95, 99]
}

/// What `derive_compat_path` builds: the library root, then the
/// compatibility-data directory, then the id in decimal, then the prefix
/// directory when asked.
pub open spec fn spec_compat_path(a: SpecApp, drive_c: bool) -> Seq<u8> {
    a.path + steamapps_compatdata() + dec_digits(a.app_id as nat) + (if drive_c {
        pfx_drive_c()
    } else {
        Seq::<u8>::empty()
    })
}

/// `b` appended to `a`.
fn concat_bytes(a: Vec<u8>, b: &[u8]) -> (r: Vec<u8>)
    ensures
        r@ == a@ + b@,
{
    let mut out = a;
    let mut i: usize = 0;
    while i < b.len()
        invariant
            i <= b@.len(),
            out@ == a@ + b@.subrange(0, i as int),
        decreases b@.len() - i,
    {
        out.push(b[i]);
        proof {
            assert(out@ =~= a@ + b@.subrange(0, i + 1));
        }
        i = i + 1;
    }
    proof {
        assert(b@.subrange(0, b@.len() as int) =~= b@);
    }
    out
}

/// The decimal digits of `n` appended to `out`.
fn push_u32_digits(n: u32, out: Vec<u8>) -> (r: Vec<u8>)
    ensures
        r@ == out@ + dec_digits(n as nat),
    decreases n,
{
    if n < 10 {
        let mut o = out;
        o.push(48 + (n as u8));
        proof {
            assert(o@ =~= out@ + dec_digits(n as nat));
        }
        o
    } else {
        let mut o = push_u32_digits(n / 10, out);
        o.push(48 + ((n % 10) as u8));
        proof {
            assert(o@ =~= out@ + dec_digits(n as nat));
        }
        o
    }
}

/// The compatibility-data path of an application: the library root, then
/// `/steamapps/compatdata/` and the id in decimal, and then `/pfx/drive_c`
/// when asked. Builds a path, touching nothing on disk.
pub fn derive_compat_path(app: &SteamApp, drive_c: bool) -> (r: Vec<u8>)
    ensures
        r@ == spec_compat_path(app@, drive_c),
{
    let root = vstd::slice::slice_to_vec(app.path.as_slice());
    let sc: Vec<u8> = vec![
        47, 115, 116, 101, 97, 109, 97, 112, 112, 115, 47, 99, 111, 109, 112, 97, 116, 100, 97,
        116, 97, 47,
    ];
    proof {
        assert(sc@ =~= steamapps_compatdata());
    }
    let with_dir = concat_bytes(root, sc.as_slice());
    let with_id = push_u32_digits(app.app_id, with_dir);
    if drive_c {
        let pd: Vec<u8> = vec![47, 112, 102, 120, 47, 100, 114, 105, 118, 101, 95, 99];
        proof {
            assert(pd@ =~= pfx_drive_c());
        }
        let full = concat_bytes(with_id, pd.as_slice());
        proof {
            assert(full@ =~= spec_compat_path(app@, drive_c));
        }
        full
    } else {
        proof {
            assert(with_id@ =~= spec_compat_path(app@, drive_c));
        }
        with_id
    }
}

} // verus!
