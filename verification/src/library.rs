//! Interpretation of parsed configuration trees into typed library-folder
//! records: each entry under the top-level `"libraryfolders"` node yields a
//! filesystem root together with the set of installed application ids.

use vstd::prelude::*;
use vstd::string::StringSliceAdditionalSpecFns;

use crate::vdf::{
    lemma_entries_view, spec_get, spec_parse_document, SpecEntries, SpecValue, Vdf, VdfParser,
    VdfValue,
};

verus! {

/// Byte value of `+`.
pub const PLUS: u8 = 43;

/// A decimal digit byte.
pub open spec fn is_digit(c: u8) -> bool {
    48 <= c <= 57
}

/// Every byte is a decimal digit.
pub open spec fn all_digits(s: Seq<u8>) -> bool {
    forall|i: int| 0 <= i < s.len() ==> is_digit(s[i])
}

/// Value of a decimal digit string.
pub open spec fn digits_val(s: Seq<u8>) -> nat
    decreases s.len(),
{
    if s.len() == 0 {
        0
    } else {
        (digits_val(s.drop_last()) * 10 + (s.last() - 48)) as nat
    }
}

/// The number a key names, exactly as the standard unsigned 32-bit parse
/// reads it: an optional leading `+`, then one or more decimal digits,
/// whose value must fit in 32 bits.
pub open spec fn spec_parse_u32(s: Seq<u8>) -> Option<u32> {
    let digits = if s.len() >= 1 && s[0] == PLUS {
        s.drop_first()
    } else {
        s
    };
    if digits.len() >= 1 && all_digits(digits) && digits_val(digits) <= u32::MAX {
        Some(digits_val(digits) as u32)
    } else {
        None
    }
}

/// A longer digit string never names a smaller value.
proof fn lemma_digits_val_mono(s: Seq<u8>, k: int)
    requires
        0 <= k <= s.len(),
        all_digits(s),
    ensures
        digits_val(s.subrange(0, k)) <= digits_val(s),
    decreases s.len() - k,
{
    if k < s.len() {
        lemma_digits_val_mono(s, k + 1);
        let shorter = s.subrange(0, k);
        let longer = s.subrange(0, k + 1);
        assert(longer.drop_last() =~= shorter);
        assert(digits_val(longer) == digits_val(shorter) * 10 + (longer.last() - 48));
        assert(digits_val(shorter) * 10 >= digits_val(shorter));
    } else {
        assert(s.subrange(0, k) =~= s);
    }
}

/// Parse a key as an unsigned 32-bit number, as the standard library's
/// string-to-`u32` conversion would.
pub fn parse_u32(s: &[u8]) -> (r: Option<u32>)
    ensures
        r == spec_parse_u32(s@),
{
    let start: usize = if s.len() >= 1 && s[0] == PLUS {
        1
    } else {
        0
    };
    let ghost digits = if s@.len() >= 1 && s@[0] == PLUS {
        s@.drop_first()
    } else {
        s@
    };
    proof {
        assert(digits =~= s@.subrange(start as int, s@.len() as int));
    }
    if s.len() == start {
        return None;
    }
    let mut acc: u64 = 0;
    let mut i: usize = start;
    while i < s.len()
        invariant
            start <= i <= s@.len(),
            start <= 1,
            digits == (if s@.len() >= 1 && s@[0] == PLUS { s@.drop_first() } else { s@ }),
            (s@.len() >= 1 && s@[0] == PLUS) <==> start == 1,
            digits =~= s@.subrange(start as int, s@.len() as int),
            acc <= u32::MAX,
            acc == digits_val(digits.subrange(0, i - start)),
            all_digits(digits.subrange(0, i - start)),
        decreases s@.len() - i,
    {
        let c = s[i];
        let ghost done = digits.subrange(0, i - start);
        let ghost next = digits.subrange(0, i + 1 - start);
        proof {
            assert(next.drop_last() =~= done);
            assert(next.last() == digits[i - start] == s@[i as int]);
        }
        if c < 48 || c > 57 {
            proof {
                assert(digits[i - start] == s@[i as int]);
                assert(!is_digit(digits[i - start]));
                assert(!all_digits(digits));
            }
            return None;
        }
        acc = acc * 10 + ((c - 48) as u64);
        if acc > 0xffff_ffff {
            proof {
                assert(acc == digits_val(next));
                if all_digits(digits) {
                    lemma_digits_val_mono(digits, i + 1 - start);
                    assert(digits_val(digits) >= digits_val(next));
                }
            }
            return None;
        }
        i = i + 1;
    }
    proof {
        assert(digits.subrange(0, i - start) =~= digits);
    }
    Some(acc as u32)
}

/// Model of one library folder: the bytes of its filesystem root and its
/// application ids in first-occurrence order, without duplicates.
pub struct SpecLibrary {
    pub path: Seq<u8>,
    pub games: Seq<u32>,
}

/// One library folder: a filesystem root and the ids of the applications
/// installed under it, without duplicates.
#[derive(Debug, PartialEq)]
pub struct SteamLibrary {
    pub path: Vec<u8>,
    pub games: Vec<u32>,
}

impl View for SteamLibrary {
    type V = SpecLibrary;

    open spec fn view(&self) -> SpecLibrary {
        SpecLibrary { path: self.path@, games: self.games@ }
    }
}

/// All library folders read from one configuration file, in document
/// order.
#[derive(Debug, PartialEq)]
pub struct SteamLibraries {
    pub libs: Vec<SteamLibrary>,
}

impl View for SteamLibraries {
    type V = Seq<SpecLibrary>;

    open spec fn view(&self) -> Seq<SpecLibrary> {
        Seq::new(self.libs@.len(), |i: int| self.libs@[i]@)
    }
}

/// Why a configuration file yields no library records.
#[derive(Debug, Clone, Copy, PartialEq, Eq, Structural)]
pub enum LibraryError {
    /// The text does not conform to the grammar; the whole file is
    /// unusable.
    ParseFailure,
    /// The top level has no `"libraryfolders"` key.
    MissingLibraryFolders,
    /// The top-level `"libraryfolders"` key holds a plain value, not a
    /// nested mapping.
    LibraryFoldersNotAMap,
}

impl LibraryError {
    /// A human-readable cause.
    pub fn message(&self) -> (r: &'static str)
        ensures
            (match self {
                LibraryError::ParseFailure => r@ == "Steam libraryfolders.vdf is invalid"@,
                LibraryError::MissingLibraryFolders => r@
                    == "Steam libraryfolders.vdf: missing libraryfolders"@,
                LibraryError::LibraryFoldersNotAMap => r@
                    == "Steam libraryfolders.vdf: libraryfolders should be a map"@,
            }),
    {
        match self {
            LibraryError::ParseFailure => "Steam libraryfolders.vdf is invalid",
            LibraryError::MissingLibraryFolders => "Steam libraryfolders.vdf: missing libraryfolders",
            LibraryError::LibraryFoldersNotAMap => "Steam libraryfolders.vdf: libraryfolders should be a map",
        }
    }
}

/// The bytes of the key `"libraryfolders"`.
pub open spec fn libraryfolders_key() -> Seq<u8> {
    seq![108u8, 105, 98, 114, 97, 114, 121, 102, 111, 108, 100, 101, 114, 115]
}

/// The bytes of the key `"path"`.
pub open spec fn path_key() -> Seq<u8> {
    seq![112u8, 97, 116, 104]
}

/// The bytes of the key `"apps"`.
pub open spec fn apps_key() -> Seq<u8> {
    seq![97u8, 112, 112, 115]
}

fn libraryfolders_key_bytes() -> (r: Vec<u8>)
    ensures
        r@ == libraryfolders_key(),
{
    let v: Vec<u8> = vec![108, 105, 98, 114, 97, 114, 121, 102, 111, 108, 100, 101, 114, 115];
    proof {
        assert(v@ =~= libraryfolders_key());
    }
    v
}

fn path_key_bytes() -> (r: Vec<u8>)
    ensures
        r@ == path_key(),
{
    let v: Vec<u8> = vec![112, 97, 116, 104];
    proof {
        assert(v@ =~= path_key());
    }
    v
}

fn apps_key_bytes() -> (r: Vec<u8>)
    ensures
        r@ == apps_key(),
{
    let v: Vec<u8> = vec![97, 112, 112, 115];
    proof {
        assert(v@ =~= apps_key());
    }
    v
}

/// Application ids named by the keys of an `"apps"` node, read in order
/// into `acc`: keys that do not parse as 32-bit numbers are skipped, and
/// an id already present is not added again.
pub open spec fn spec_games_acc(apps: SpecEntries, acc: Seq<u32>) -> Seq<u32>
    decreases apps.len(),
{
    if apps.len() == 0 {
        acc
    } else {
        let rest = apps.drop_first();
        match spec_parse_u32(apps[0].0) {
            Some(id) => if acc.contains(id) {
                spec_games_acc(rest, acc)
            } else {
                spec_games_acc(rest, acc.push(id))
            },
            None => spec_games_acc(rest, acc),
        }
    }
}

/// The library record one entry under `"libraryfolders"` yields: nothing
/// unless the entry is a mapping holding a leaf `"path"` and a mapping
/// `"apps"`, whose keys then name the installed application ids.
pub open spec fn spec_extract_lib(v: SpecValue) -> Option<SpecLibrary> {
    match v {
        SpecValue::Leaf(_) => None,
        SpecValue::Node(m) => match spec_get(m, path_key()) {
            Some(SpecValue::Leaf(p)) => match spec_get(m, apps_key()) {
                Some(SpecValue::Node(apps)) => Some(
                    SpecLibrary { path: p, games: spec_games_acc(apps, Seq::empty()) },
                ),
                _ => None,
            },
            _ => None,
        },
    }
}

/// The library records of all entries under `"libraryfolders"`, in
/// document order; entries that yield no record are skipped silently.
pub open spec fn spec_extract_all(es: SpecEntries) -> Seq<SpecLibrary>
    decreases es.len(),
{
    if es.len() == 0 {
        Seq::empty()
    } else {
        match spec_extract_lib(es[0].1) {
            Some(l) => seq![l] + spec_extract_all(es.drop_first()),
            None => spec_extract_all(es.drop_first()),
        }
    }
}

/// What extraction yields for a whole parsed file.
pub open spec fn spec_extract_result(root: SpecEntries) -> Result<Seq<SpecLibrary>, LibraryError> {
    match spec_get(root, libraryfolders_key()) {
        None => Err(LibraryError::MissingLibraryFolders),
        Some(SpecValue::Leaf(_)) => Err(LibraryError::LibraryFoldersNotAMap),
        Some(SpecValue::Node(es)) => Ok(spec_extract_all(es)),
    }
}

/// Whether `x` occurs in `v`.
fn contains_u32(v: &Vec<u32>, x: u32) -> (r: bool)
    ensures
        r == v@.contains(x),
{
    let mut i: usize = 0;
    while i < v.len()
        invariant
            i <= v@.len(),
            forall|j: int| 0 <= j < i ==> v@[j] != x,
        decreases v@.len() - i,
    {
        if v[i] == x {
            return true;
        }
        i = i + 1;
    }
    false
}

/// The application ids named by the keys of an `"apps"` node.
fn collect_games(apps: &Vdf) -> (r: Vec<u32>)
    ensures
        r@ == spec_games_acc(apps@, Seq::empty()),
{
    proof {
        lemma_entries_view(apps.entries@);
    }
    let ghost all = apps@;
    proof {
        assert(all.subrange(0, all.len() as int) =~= all);
    }
    let mut games: Vec<u32> = Vec::new();
    let mut i: usize = 0;
    while i < apps.entries.len()
        invariant
            i <= apps.entries@.len(),
            all == apps@,
            all.len() == apps.entries@.len(),
            forall|j: int|
                0 <= j < all.len() ==> all[j] == crate::vdf::entry_view(apps.entries@[j]),
            spec_games_acc(all, Seq::empty()) == spec_games_acc(
                all.subrange(i as int, all.len() as int),
                games@,
            ),
        decreases apps.entries@.len() - i,
    {
        let ghost suffix = all.subrange(i as int, all.len() as int);
        proof {
            assert(suffix.drop_first() =~= all.subrange(i + 1, all.len() as int));
            assert(suffix[0] == all[i as int]);
        }
        let ghost gbefore = games@;
        match parse_u32(apps.entries[i].0.as_slice()) {
            Some(id) => {
                if !contains_u32(&games, id) {
                    games.push(id);
                }
            },
            None => {},
        }
        proof {
            assert(spec_games_acc(suffix, gbefore) == spec_games_acc(
                all.subrange(i + 1, all.len() as int),
                games@,
            ));
        }
        i = i + 1;
    }
    proof {
        assert(all.subrange(all.len() as int, all.len() as int) =~= Seq::<(
            Seq<u8>,
            SpecValue,
        )>::empty());
    }
    games
}

/// The library record one entry under `"libraryfolders"` yields, if any.
fn extract_lib(v: &VdfValue) -> (r: Option<SteamLibrary>)
    ensures
        (match spec_extract_lib(v@) {
            Some(l) => r matches Some(rl) && rl@ == l,
            None => r is None,
        }),
{
    let m = match v.as_map() {
        Some(m) => m,
        None => {
            return None;
        },
    };
    let pk = path_key_bytes();
    let path = match m.get(pk.as_slice()) {
        Some(pv) => match pv.as_value() {
            Some(p) => p,
            None => {
                return None;
            },
        },
        None => {
            return None;
        },
    };
    let ak = apps_key_bytes();
    let apps = match m.get(ak.as_slice()) {
        Some(av) => match av.as_map() {
            Some(a) => a,
            None => {
                return None;
            },
        },
        None => {
            return None;
        },
    };
    let games = collect_games(apps);
    Some(SteamLibrary { path: vstd::slice::slice_to_vec(path.as_slice()), games })
}

/// Interpret a parsed configuration tree: look up `"libraryfolders"`,
/// which must be a mapping, and extract one library record per well-formed
/// entry in it, silently skipping malformed entries.
pub fn extract_libraries(root: &Vdf) -> (r: Result<SteamLibraries, LibraryError>)
    ensures
        (match spec_extract_result(root@) {
            Ok(ls) => r matches Ok(libs) && libs@ == ls,
            Err(e) => r matches Err(re) && re == e,
        }),
{
    let lk = libraryfolders_key_bytes();
    let lf = match root.get(lk.as_slice()) {
        Some(v) => v,
        None => {
            return Err(LibraryError::MissingLibraryFolders);
        },
    };
    let entries = match lf.as_map() {
        Some(m) => m,
        None => {
            return Err(LibraryError::LibraryFoldersNotAMap);
        },
    };
    proof {
        lemma_entries_view(entries.entries@);
    }
    let ghost all = entries@;
    let mut libs: Vec<SteamLibrary> = Vec::new();
    proof {
        assert(all.subrange(0, all.len() as int) =~= all);
        assert(Seq::new(libs@.len(), |k: int| libs@[k]@) + spec_extract_all(all) =~= spec_extract_all(all));
    }
    let mut i: usize = 0;
    while i < entries.entries.len()
        invariant
            i <= entries.entries@.len(),
            all == entries@,
            all.len() == entries.entries@.len(),
            forall|j: int|
                0 <= j < all.len() ==> all[j] == crate::vdf::entry_view(entries.entries@[j]),
            spec_extract_all(all) =~= Seq::new(libs@.len(), |k: int| libs@[k]@) + spec_extract_all(
                all.subrange(i as int, all.len() as int),
            ),
        decreases entries.entries@.len() - i,
    {
        let ghost suffix = all.subrange(i as int, all.len() as int);
        proof {
            assert(suffix.drop_first() =~= all.subrange(i + 1, all.len() as int));
            assert(suffix[0] == all[i as int]);
        }
        match extract_lib(&entries.entries[i].1) {
            Some(lib) => {
                libs.push(lib);
            },
            None => {},
        }
        proof {
            assert(spec_extract_all(all) =~= Seq::new(libs@.len(), |k: int| libs@[k]@)
                + spec_extract_all(all.subrange(i + 1, all.len() as int)));
        }
        i = i + 1;
    }
    proof {
        assert(all.subrange(all.len() as int, all.len() as int) =~= Seq::<(
            Seq<u8>,
            SpecValue,
        )>::empty());
    }
    let result = SteamLibraries { libs };
    proof {
        assert(result@ =~= spec_extract_all(all));
    }
    Ok(result)
}

/// Parse the text of a library-configuration file and extract its library
/// records: a text that does not parse is a `ParseFailure`, a parsed text
/// without a `"libraryfolders"` mapping is a structural error, and inside
/// the mapping malformed entries are silently skipped.
pub fn parse_libraries(text: &str) -> (r: Result<SteamLibraries, LibraryError>)
    ensures
        (match spec_parse_document(text.spec_bytes(), 0) {
            None => r matches Err(e) && e == LibraryError::ParseFailure,
            Some(ep) => match spec_extract_result(ep.0) {
                Ok(ls) => r matches Ok(libs) && libs@ == ls,
                Err(e) => r matches Err(re) && re == e,
            },
        }),
{
    let mut parser = VdfParser::from_str(text);
    match parser.parse_entries() {
        None => Err(LibraryError::ParseFailure),
        Some(root) => extract_libraries(&root),
    }
}

/// Silent skipping of malformed entries: a library entry that is a
/// mapping without an `"apps"` key yields no record, and extraction of a
/// `"libraryfolders"` node holding it returns exactly the records of the
/// other entries.
pub proof fn lemma_silent_skip(es: SpecEntries, i: int)
    requires
        0 <= i < es.len(),
        es[i].1 matches SpecValue::Node(m) && !crate::vdf::has_key(m, apps_key()),
    ensures
        spec_extract_lib(es[i].1) is None,
        spec_extract_all(es) == spec_extract_all(es.remove(i)),
    decreases es.len(),
{
    if i == 0 {
        assert(es.remove(0) =~= es.drop_first());
    } else {
        lemma_silent_skip(es.drop_first(), i - 1);
        assert(es.drop_first()[i - 1] == es[i]);
        assert(es.remove(i)[0] == es[0]);
        assert(es.remove(i).drop_first() =~= es.drop_first().remove(i - 1));
    }
}

} // verus!
