//! Parser for the VDF text configuration format: quoted string tokens and
//! brace-delimited nested groups.
//!
//! The grammar is
//! ```text
//! entries  := entry*
//! entry    := quoted_string value
//! value    := quoted_string | '{' entries '}'
//! quoted_string := '"' <any bytes except '"'> '"'
//! ```
//! Whitespace separates tokens and is otherwise insignificant; no escape
//! sequences exist, so a literal `"` cannot occur inside a quoted string.
//!
//! The parser works on the raw bytes of the input. Each sub-parser either
//! consumes input and returns a value, or consumes nothing and signals
//! failure, so callers can backtrack by trying an alternative.

use vstd::prelude::*;
use vstd::string::StringSliceAdditionalSpecFns;

verus! {

/// Byte value of `"`.
pub const QUOTE: u8 = 34;

/// Byte value of `{`.
pub const LBRACE: u8 = 123;

/// Byte value of `}`.
pub const RBRACE: u8 = 125;

/// Mathematical model of a parsed tree: a leaf holds the bytes between the
/// quotes of one string token, a node holds key/value pairs in insertion
/// order.
pub enum SpecValue {
    Leaf(Seq<u8>),
    Node(Seq<(Seq<u8>, SpecValue)>),
}

/// The entries of one node of the model tree.
pub type SpecEntries = Seq<(Seq<u8>, SpecValue)>;

/// No key occurs twice among the entries.
pub open spec fn unique_keys(es: SpecEntries) -> bool {
    forall|i: int, j: int| 0 <= i < j < es.len() ==> es[i].0 != es[j].0
}

/// Index of the entry holding `key`, or -1 when no entry does.
pub open spec fn key_index(es: SpecEntries, key: Seq<u8>) -> int
    decreases es.len(),
{
    if es.len() == 0 {
        -1
    } else if es[0].0 == key {
        0
    } else {
        let r = key_index(es.drop_first(), key);
        if r < 0 {
            -1
        } else {
            r + 1
        }
    }
}

/// Whether some entry holds `key`.
pub open spec fn has_key(es: SpecEntries, key: Seq<u8>) -> bool {
    key_index(es, key) >= 0
}

/// The value stored under `key`, if any.
pub open spec fn spec_get(es: SpecEntries, key: Seq<u8>) -> Option<SpecValue> {
    if has_key(es, key) {
        Some(es[key_index(es, key)].1)
    } else {
        None
    }
}

/// Mapping insertion with last-write-wins semantics: an existing entry for
/// `key` is replaced in place, otherwise the new entry is appended.
pub open spec fn spec_insert(es: SpecEntries, key: Seq<u8>, v: SpecValue) -> SpecEntries {
    if has_key(es, key) {
        es.update(key_index(es, key), (key, v))
    } else {
        es.push((key, v))
    }
}

/// `key_index` points at the first entry holding `key`; a negative result
/// means no entry holds it.
pub proof fn lemma_key_index(es: SpecEntries, key: Seq<u8>)
    ensures
        key_index(es, key) >= 0 ==> {
            &&& key_index(es, key) < es.len()
            &&& es[key_index(es, key)].0 == key
            &&& forall|j: int| 0 <= j < key_index(es, key) ==> es[j].0 != key
        },
        key_index(es, key) < 0 ==> forall|j: int| 0 <= j < es.len() ==> es[j].0 != key,
    decreases es.len(),
{
    if es.len() != 0 && es[0].0 != key {
        lemma_key_index(es.drop_first(), key);
        assert forall|j: int| 1 <= j < es.len() implies es.drop_first()[j - 1] == es[j] by {}
    }
}


/// When `i` is the first index holding `key`, it is the index `key_index`
/// finds.
pub proof fn lemma_key_index_at(es: SpecEntries, key: Seq<u8>, i: int)
    requires
        0 <= i < es.len(),
        es[i].0 == key,
        forall|j: int| 0 <= j < i ==> es[j].0 != key,
    ensures
        key_index(es, key) == i,
        spec_get(es, key) == Some(es[i].1),
{
    lemma_key_index(es, key);
    let ki = key_index(es, key);
    if ki < 0 {
        assert(es[i].0 != key);
    } else if ki < i {
        assert(es[ki].0 != key);
    } else if ki > i {
        assert(es[i].0 != key);
    }
}

/// When no index holds `key`, `key_index` finds none.
pub proof fn lemma_key_index_absent(es: SpecEntries, key: Seq<u8>)
    requires
        forall|j: int| 0 <= j < es.len() ==> es[j].0 != key,
    ensures
        key_index(es, key) < 0,
        spec_get(es, key) is None,
{
    lemma_key_index(es, key);
    let ki = key_index(es, key);
    if ki >= 0 {
        assert(es[ki].0 != key);
    }
}

/// Whitespace bytes that separate tokens: space, tab, line feed, carriage
/// return.
pub open spec fn is_ws(c: u8) -> bool {
    c == 32 || c == 9 || c == 10 || c == 13
}

/// First position at or after `pos` holding a non-whitespace byte, or the
/// length of `s` when only whitespace remains.
pub open spec fn skip_ws(s: Seq<u8>, pos: int) -> int
    decreases s.len() - pos,
{
    if pos < s.len() && is_ws(s[pos]) {
        skip_ws(s, pos + 1)
    } else {
        pos
    }
}

/// First position at or after `pos` holding byte `c`, if any.
pub open spec fn find_byte(s: Seq<u8>, pos: int, c: u8) -> Option<int>
    decreases s.len() - pos,
{
    if pos >= s.len() {
        None
    } else if s[pos] == c {
        Some(pos)
    } else {
        find_byte(s, pos + 1, c)
    }
}

/// Result of parsing one token `c` at `pos`: the position after the token,
/// or `None` when the next non-whitespace byte is not `c`.
pub open spec fn spec_parse_char(s: Seq<u8>, pos: int, c: u8) -> Option<int> {
    let p = skip_ws(s, pos);
    if p < s.len() && s[p] == c {
        Some(p + 1)
    } else {
        None
    }
}

/// Result of parsing one quoted string at `pos`: the bytes between the
/// quotes and the position after the closing quote. Fails when the next
/// non-whitespace byte is not `"` or no closing `"` follows.
pub open spec fn spec_parse_lit_str(s: Seq<u8>, pos: int) -> Option<(Seq<u8>, int)> {
    match spec_parse_char(s, pos, QUOTE) {
        None => None,
        Some(p) => match find_byte(s, p, QUOTE) {
            None => None,
            Some(q) => Some((s.subrange(p, q), q + 1)),
        },
    }
}

/// Result of parsing one value at `pos`: a quoted string makes a leaf,
/// otherwise a brace-delimited group makes a node.
pub open spec fn spec_parse_value(s: Seq<u8>, pos: int) -> Option<(SpecValue, int)>
    decreases s.len() - pos, 2int,
{
    match spec_parse_lit_str(s, pos) {
        Some((v, p)) => Some((SpecValue::Leaf(v), p)),
        None => match spec_parse_map(s, pos) {
            Some((es, p)) => Some((SpecValue::Node(es), p)),
            None => None,
        },
    }
}

/// Result of parsing one brace-delimited group at `pos`. The position
/// guard on the opening brace only serves the termination measure; it
/// always holds, since parsing a token moves the position forward.
pub open spec fn spec_parse_map(s: Seq<u8>, pos: int) -> Option<(SpecEntries, int)>
    decreases s.len() - pos, 1int,
{
    match spec_parse_char(s, pos, LBRACE) {
        None => None,
        Some(p1) => if p1 <= pos {
            None
        } else {
            match spec_parse_entries(s, p1, Seq::empty()) {
                None => None,
                Some((es, p2)) => match spec_parse_char(s, p2, RBRACE) {
                    None => None,
                    Some(p3) => Some((es, p3)),
                },
            }
        },
    }
}

/// Result of parsing one key/value entry at `pos`. The position guard
/// after the key only serves the termination measure; it always holds.
pub open spec fn spec_parse_entry(s: Seq<u8>, pos: int) -> Option<(Seq<u8>, SpecValue, int)>
    decreases s.len() - pos, 3int,
{
    match spec_parse_lit_str(s, pos) {
        None => None,
        Some((k, p1)) => if p1 <= pos || p1 > s.len() {
            None
        } else {
            match spec_parse_value(s, p1) {
                None => None,
                Some((v, p2)) => Some((k, v, p2)),
            }
        },
    }
}

/// Result of folding entries into `acc` from `pos` on, with last-write-wins
/// insertion. Parsing stops successfully before a `}` or at the end of the
/// input; anything else that fails to parse as an entry fails the whole
/// sequence. The position guard only serves the termination measure.
pub open spec fn spec_parse_entries(s: Seq<u8>, pos: int, acc: SpecEntries) -> Option<
    (SpecEntries, int),
>
    decreases s.len() - pos, 4int,
{
    match spec_parse_entry(s, pos) {
        Some((k, v, p2)) => if p2 <= pos || p2 > s.len() {
            None
        } else {
            spec_parse_entries(s, p2, spec_insert(acc, k, v))
        },
        None => {
            let p = skip_ws(s, pos);
            if p >= s.len() || s[p] == RBRACE {
                Some((acc, pos))
            } else {
                None
            }
        },
    }
}

/// Result of parsing the entire remaining input as a flat entry
/// sequence: the parse fails unless, after the last entry, only
/// whitespace remains. Inside a brace group a parse stops before the
/// closing brace instead; this form is for the top level, where a stray
/// closing brace is as malformed as any other leftover text.
pub open spec fn spec_parse_document(s: Seq<u8>, pos: int) -> Option<(SpecEntries, int)> {
    match spec_parse_entries(s, pos, Seq::empty()) {
        Some((es, p)) => if skip_ws(s, p) == s.len() {
            Some((es, p))
        } else {
            None
        },
        None => None,
    }
}

/// `skip_ws` never moves backwards and never passes the end of the input.
pub proof fn lemma_skip_ws_bounds(s: Seq<u8>, pos: int)
    requires
        pos <= s.len(),
    ensures
        pos <= skip_ws(s, pos) <= s.len(),
    decreases s.len() - pos,
{
    if pos < s.len() && is_ws(s[pos]) {
        lemma_skip_ws_bounds(s, pos + 1);
    }
}

/// A found byte lies between `pos` and the end of the input.
pub proof fn lemma_find_byte_bounds(s: Seq<u8>, pos: int, c: u8)
    requires
        0 <= pos,
    ensures
        find_byte(s, pos, c) matches Some(q) ==> pos <= q < s.len() && s[q] == c,
    decreases s.len() - pos,
{
    if pos < s.len() && s[pos] != c {
        lemma_find_byte_bounds(s, pos + 1, c);
    }
}

/// A successfully parsed token moves the position strictly forward.
pub proof fn lemma_parse_char_advances(s: Seq<u8>, pos: int, c: u8)
    requires
        0 <= pos <= s.len(),
    ensures
        spec_parse_char(s, pos, c) matches Some(p) ==> pos < p <= s.len(),
{
    lemma_skip_ws_bounds(s, pos);
}

/// A successfully parsed quoted string moves the position strictly forward.
pub proof fn lemma_parse_lit_str_advances(s: Seq<u8>, pos: int)
    requires
        0 <= pos <= s.len(),
    ensures
        spec_parse_lit_str(s, pos) matches Some(r) ==> pos < r.1 <= s.len(),
{
    lemma_parse_char_advances(s, pos, QUOTE);
    match spec_parse_char(s, pos, QUOTE) {
        Some(p) => lemma_find_byte_bounds(s, p, QUOTE),
        None => {},
    }
}

/// A successfully parsed value moves the position strictly forward.
pub proof fn lemma_parse_value_advances(s: Seq<u8>, pos: int)
    requires
        0 <= pos <= s.len(),
    ensures
        spec_parse_value(s, pos) matches Some(r) ==> pos < r.1 <= s.len(),
    decreases s.len() - pos, 2int,
{
    lemma_parse_lit_str_advances(s, pos);
    lemma_parse_map_advances(s, pos);
}

/// A successfully parsed group moves the position strictly forward.
pub proof fn lemma_parse_map_advances(s: Seq<u8>, pos: int)
    requires
        0 <= pos <= s.len(),
    ensures
        spec_parse_map(s, pos) matches Some(r) ==> pos < r.1 <= s.len(),
    decreases s.len() - pos, 1int,
{
    lemma_parse_char_advances(s, pos, LBRACE);
    match spec_parse_char(s, pos, LBRACE) {
        Some(p1) => {
            lemma_parse_entries_advances(s, p1, Seq::empty());
            match spec_parse_entries(s, p1, Seq::empty()) {
                Some(r) => lemma_parse_char_advances(s, r.1, RBRACE),
                None => {},
            }
        },
        None => {},
    }
}

/// A successfully parsed entry moves the position strictly forward.
pub proof fn lemma_parse_entry_advances(s: Seq<u8>, pos: int)
    requires
        0 <= pos <= s.len(),
    ensures
        spec_parse_entry(s, pos) matches Some(r) ==> pos < r.2 <= s.len(),
    decreases s.len() - pos, 3int,
{
    lemma_parse_lit_str_advances(s, pos);
    match spec_parse_lit_str(s, pos) {
        Some(r) => lemma_parse_value_advances(s, r.1),
        None => {},
    }
}

/// A successfully parsed entry sequence never moves the position backwards.
pub proof fn lemma_parse_entries_advances(s: Seq<u8>, pos: int, acc: SpecEntries)
    requires
        0 <= pos <= s.len(),
    ensures
        spec_parse_entries(s, pos, acc) matches Some(r) ==> pos <= r.1 <= s.len(),
    decreases s.len() - pos, 4int,
{
    lemma_parse_entry_advances(s, pos);
    match spec_parse_entry(s, pos) {
        Some(e) => {
            if e.2 > pos {
                lemma_parse_entries_advances(s, e.2, spec_insert(acc, e.0, e.1));
            }
        },
        None => {},
    }
}

/// A parsed value: either the bytes of one quoted string, or a nested
/// mapping.
#[derive(Debug, PartialEq)]
pub enum VdfValue {
    Value(Vec<u8>),
    Node(Vdf),
}

/// A parsed mapping from keys to values, keys unique, in insertion order.
#[derive(Debug, PartialEq)]
pub struct Vdf {
    pub entries: Vec<(Vec<u8>, VdfValue)>,
}

impl View for VdfValue {
    type V = SpecValue;

    open spec fn view(&self) -> SpecValue
        decreases self,
    {
        match self {
            VdfValue::Value(v) => SpecValue::Leaf(v@),
            VdfValue::Node(m) => SpecValue::Node(m@),
        }
    }
}

impl View for Vdf {
    type V = SpecEntries;

    open spec fn view(&self) -> SpecEntries
        decreases self,
    {
        entries_view(self.entries@)
    }
}

/// Model of one stored entry.
pub open spec fn entry_view(e: (Vec<u8>, VdfValue)) -> (Seq<u8>, SpecValue)
    decreases e,
{
    (e.0@, e.1@)
}

/// Model of a stored entry sequence.
pub open spec fn entries_view(entries: Seq<(Vec<u8>, VdfValue)>) -> SpecEntries
    decreases entries,
{
    if entries.len() == 0 {
        Seq::empty()
    } else {
        seq![entry_view(entries[0])] + entries_view(entries.drop_first())
    }
}

/// Each modelled entry is the model of the stored entry at the same index.
pub proof fn lemma_entries_view(entries: Seq<(Vec<u8>, VdfValue)>)
    ensures
        entries_view(entries).len() == entries.len(),
        forall|i: int|
            0 <= i < entries.len() ==> entries_view(entries)[i] == entry_view(entries[i]),
    decreases entries.len(),
{
    if entries.len() != 0 {
        lemma_entries_view(entries.drop_first());
    }
}

impl VdfValue {
    /// The bytes of a leaf value, or nothing for a mapping.
    pub fn as_value(&self) -> (r: Option<&Vec<u8>>)
        ensures
            (match self@ {
                SpecValue::Leaf(b) => r matches Some(v) && v@ == b,
                SpecValue::Node(_) => r is None,
            }),
    {
        match self {
            VdfValue::Value(val) => Some(val),
            _ => None,
        }
    }

    /// The nested mapping of a map value, or nothing for a leaf.
    pub fn as_map(&self) -> (r: Option<&Vdf>)
        ensures
            (match self@ {
                SpecValue::Node(es) => r matches Some(m) && m@ == es,
                SpecValue::Leaf(_) => r is None,
            }),
    {
        match self {
            VdfValue::Node(map) => Some(map),
            _ => None,
        }
    }
}

/// Whether two byte slices hold the same bytes.
pub fn bytes_eq(a: &[u8], b: &[u8]) -> (r: bool)
    ensures
        r == (a@ == b@),
{
    if a.len() != b.len() {
        assert(a@ != b@);
        return false;
    }
    let mut i: usize = 0;
    while i < a.len()
        invariant
            i <= a@.len(),
            a@.len() == b@.len(),
            forall|j: int| 0 <= j < i ==> a@[j] == b@[j],
        decreases a@.len() - i,
    {
        if a[i] != b[i] {
            return false;
        }
        i = i + 1;
    }
    proof {
        assert(a@ =~= b@);
    }
    true
}

impl Vdf {
    /// An empty mapping.
    pub fn new() -> (r: Self)
        ensures
            r@ == Seq::<(Seq<u8>, SpecValue)>::empty(),
    {
        Vdf { entries: Vec::new() }
    }

    /// The value stored under `key`, if any.
    pub fn get(&self, key: &[u8]) -> (r: Option<&VdfValue>)
        ensures
            (match spec_get(self@, key@) {
                Some(v) => r matches Some(rv) && rv@ == v,
                None => r is None,
            }),
    {
        proof {
            lemma_entries_view(self.entries@);
        }
        let mut i: usize = 0;
        while i < self.entries.len()
            invariant
                i <= self.entries@.len(),
                self@.len() == self.entries@.len(),
                forall|j: int| 0 <= j < self@.len() ==> self@[j] == entry_view(self.entries@[j]),
                forall|j: int| 0 <= j < i ==> self@[j].0 != key@,
            decreases self.entries@.len() - i,
        {
            if bytes_eq(self.entries[i].0.as_slice(), key) {
                proof {
                    lemma_key_index_at(self@, key@, i as int);
                }
                return Some(&self.entries[i].1);
            }
            i = i + 1;
        }
        proof {
            lemma_key_index_absent(self@, key@);
        }
        None
    }

    /// Number of entries.
    pub fn len(&self) -> (r: usize)
        ensures
            r == self@.len(),
    {
        proof {
            lemma_entries_view(self.entries@);
        }
        self.entries.len()
    }

    /// Index of the entry holding `key`, if any.
    fn index_of(&self, key: &[u8]) -> (r: Option<usize>)
        ensures
            (match r {
                Some(i) => i == key_index(self@, key@) && i < self.entries@.len(),
                None => !has_key(self@, key@),
            }),
            self@.len() == self.entries@.len(),
            forall|j: int| 0 <= j < self@.len() ==> self@[j] == entry_view(self.entries@[j]),
    {
        proof {
            lemma_entries_view(self.entries@);
        }
        let mut i: usize = 0;
        while i < self.entries.len()
            invariant
                i <= self.entries@.len(),
                self@.len() == self.entries@.len(),
                forall|j: int| 0 <= j < self@.len() ==> self@[j] == entry_view(self.entries@[j]),
                forall|j: int| 0 <= j < i ==> self@[j].0 != key@,
            decreases self.entries@.len() - i,
        {
            if bytes_eq(self.entries[i].0.as_slice(), key) {
                proof {
                    lemma_key_index_at(self@, key@, i as int);
                }
                return Some(i);
            }
            i = i + 1;
        }
        proof {
            lemma_key_index_absent(self@, key@);
        }
        None
    }

    /// Insertion with last-write-wins semantics: an existing entry for
    /// `key` is replaced in place, otherwise the new entry is appended.
    pub fn insert(&mut self, key: Vec<u8>, v: VdfValue)
        ensures
            final(self)@ == spec_insert(old(self)@, key@, v@),
    {
        match self.index_of(key.as_slice()) {
            Some(i) => {
                self.entries.set(i, (key, v));
                proof {
                    lemma_entries_view(self.entries@);
                    assert forall|j: int|
                        0 <= j < old(self)@.len() && j != i implies self@[j] == old(
                        self,
                    )@[j] by {
                        assert(self.entries@[j] == old(self).entries@[j]);
                    }
                    assert(self@ =~= spec_insert(old(self)@, key@, v@));
                }
            },
            None => {
                self.entries.push((key, v));
                proof {
                    lemma_entries_view(self.entries@);
                    assert forall|j: int|
                        0 <= j < old(self)@.len() implies self@[j] == old(self)@[j] by {
                        assert(self.entries@[j] == old(self).entries@[j]);
                    }
                    assert(self@ =~= spec_insert(old(self)@, key@, v@));
                }
            },
        }
    }
}

/// A recursive-descent parser over the raw bytes of the input, holding the
/// input and the current position.
pub struct VdfParser {
    pub s: Vec<u8>,
    pub pos: usize,
}

impl VdfParser {
    /// The position never passes the end of the input.
    pub open spec fn wf(self) -> bool {
        self.pos <= self.s@.len()
    }

    /// First byte at or after `pos` that is not whitespace, with the
    /// position after it.
    fn next_token(s: &Vec<u8>, pos: usize) -> (r: Option<(u8, usize)>)
        requires
            pos <= s@.len(),
        ensures
            ({
                let p = skip_ws(s@, pos as int);
                match r {
                    Some(t) => p < s@.len() && t.0 == s@[p] && t.1 == p + 1,
                    None => p == s@.len(),
                }
            }),
    {
        let mut i: usize = pos;
        while i < s.len() && (s[i] == 32 || s[i] == 9 || s[i] == 10 || s[i] == 13)
            invariant
                pos <= i <= s@.len(),
                skip_ws(s@, pos as int) == skip_ws(s@, i as int),
            decreases s@.len() - i,
        {
            i = i + 1;
        }
        if i < s.len() {
            Some((s[i], i + 1))
        } else {
            None
        }
    }

    /// Parse the token `ch` at `pos`, returning the position after it.
    fn char_at(s: &Vec<u8>, pos: usize, ch: u8) -> (r: Option<usize>)
        requires
            pos <= s@.len(),
        ensures
            (match spec_parse_char(s@, pos as int, ch) {
                Some(p) => r matches Some(rp) && rp == p && rp <= s@.len(),
                None => r is None,
            }),
    {
        match Self::next_token(s, pos) {
            Some((c, next)) => if c == ch {
                Some(next)
            } else {
                None
            },
            None => None,
        }
    }

    /// Parse a quoted string at `pos`, returning its bytes and the position
    /// after the closing quote.
    fn lit_str_at(s: &Vec<u8>, pos: usize) -> (r: Option<(Vec<u8>, usize)>)
        requires
            pos <= s@.len(),
        ensures
            (match spec_parse_lit_str(s@, pos as int) {
                Some(kp) => r matches Some(rp) && rp.0@ == kp.0 && rp.1 == kp.1 && rp.1
                    <= s@.len(),
                None => r is None,
            }),
    {
        match Self::char_at(s, pos, QUOTE) {
            None => None,
            Some(p) => {
                let mut out: Vec<u8> = Vec::new();
                let mut i: usize = p;
                while i < s.len() && s[i] != QUOTE
                    invariant
                        p <= i <= s@.len(),
                        find_byte(s@, p as int, QUOTE) == find_byte(s@, i as int, QUOTE),
                        out@ == s@.subrange(p as int, i as int),
                    decreases s@.len() - i,
                {
                    out.push(s[i]);
                    proof {
                        assert(out@ =~= s@.subrange(p as int, (i + 1) as int));
                    }
                    i = i + 1;
                }
                if i < s.len() {
                    Some((out, i + 1))
                } else {
                    None
                }
            },
        }
    }

    /// Parse one value at `pos`: a quoted string, or a brace group.
    fn value_at(s: &Vec<u8>, pos: usize) -> (r: Option<(VdfValue, usize)>)
        requires
            pos <= s@.len(),
        ensures
            (match spec_parse_value(s@, pos as int) {
                Some(vp) => r matches Some(rp) && rp.0@ == vp.0 && rp.1 == vp.1 && rp.1
                    <= s@.len(),
                None => r is None,
            }),
        decreases s@.len() - pos, 2int,
    {
        match Self::lit_str_at(s, pos) {
            Some((val, p)) => Some((VdfValue::Value(val), p)),
            None => match Self::map_at(s, pos) {
                Some((m, p)) => Some((VdfValue::Node(m), p)),
                None => None,
            },
        }
    }

    /// Parse one brace-delimited group at `pos`.
    fn map_at(s: &Vec<u8>, pos: usize) -> (r: Option<(Vdf, usize)>)
        requires
            pos <= s@.len(),
        ensures
            (match spec_parse_map(s@, pos as int) {
                Some(mp) => r matches Some(rp) && rp.0@ == mp.0 && rp.1 == mp.1 && rp.1
                    <= s@.len(),
                None => r is None,
            }),
        decreases s@.len() - pos, 1int,
    {
        proof {
            lemma_parse_char_advances(s@, pos as int, LBRACE);
        }
        match Self::char_at(s, pos, LBRACE) {
            None => None,
            Some(p1) => match Self::entries_at(s, p1) {
                None => None,
                Some((vdf, p2)) => match Self::char_at(s, p2, RBRACE) {
                    None => None,
                    Some(p3) => Some((vdf, p3)),
                },
            },
        }
    }

    /// Parse one key/value entry at `pos`.
    fn entry_at(s: &Vec<u8>, pos: usize) -> (r: Option<(Vec<u8>, VdfValue, usize)>)
        requires
            pos <= s@.len(),
        ensures
            (match spec_parse_entry(s@, pos as int) {
                Some(kvp) => r matches Some(rp) && rp.0@ == kvp.0 && rp.1@ == kvp.1 && rp.2
                    == kvp.2 && rp.2 <= s@.len(),
                None => r is None,
            }),
        decreases s@.len() - pos, 3int,
    {
        proof {
            lemma_parse_lit_str_advances(s@, pos as int);
        }
        match Self::lit_str_at(s, pos) {
            None => None,
            Some((k, p1)) => match Self::value_at(s, p1) {
                None => None,
                Some((v, p2)) => Some((k, v, p2)),
            },
        }
    }

    /// Parse a sequence of entries from `pos` on, folding them into one
    /// mapping with last-write-wins insertion, stopping before a `}` or at
    /// the end of the input.
    fn entries_at(s: &Vec<u8>, pos: usize) -> (r: Option<(Vdf, usize)>)
        requires
            pos <= s@.len(),
        ensures
            (match spec_parse_entries(s@, pos as int, Seq::empty()) {
                Some(ep) => r matches Some(rp) && rp.0@ == ep.0 && rp.1 == ep.1 && rp.1
                    <= s@.len(),
                None => r is None,
            }),
        decreases s@.len() - pos, 4int,
    {
        let mut vdf = Vdf::new();
        let mut i: usize = pos;
        loop
            invariant
                pos <= i <= s@.len(),
                spec_parse_entries(s@, pos as int, Seq::empty()) == spec_parse_entries(
                    s@,
                    i as int,
                    vdf@,
                ),
            decreases s@.len() - i,
        {
            proof {
                lemma_parse_entry_advances(s@, i as int);
            }
            match Self::entry_at(s, i) {
                Some((k, v, p2)) => {
                    let ghost before = vdf@;
                    vdf.insert(k, v);
                    proof {
                        assert(spec_parse_entries(s@, i as int, before) == spec_parse_entries(
                            s@,
                            p2 as int,
                            vdf@,
                        ));
                    }
                    i = p2;
                },
                None => {
                    match Self::next_token(s, i) {
                        None => {
                            return Some((vdf, i));
                        },
                        Some((c, _)) => {
                            if c == RBRACE {
                                return Some((vdf, i));
                            } else {
                                return None;
                            }
                        },
                    }
                },
            }
        }
    }

    /// A parser positioned at the start of the UTF-8 text `text`.
    pub fn from_str(text: &str) -> (r: Self)
        ensures
            r.s@ == text.spec_bytes(),
            r.pos == 0,
            r.wf(),
    {
        VdfParser { s: vstd::slice::slice_to_vec(text.as_bytes()), pos: 0 }
    }

    /// First byte of the remaining input that is not whitespace, with the
    /// position after it; nothing when only whitespace remains. Consumes
    /// nothing.
    pub fn split_char(&self) -> (r: Option<(u8, usize)>)
        requires
            self.wf(),
        ensures
            ({
                let p = skip_ws(self.s@, self.pos as int);
                match r {
                    Some(t) => p < self.s@.len() && t.0 == self.s@[p] && t.1 == p + 1,
                    None => p == self.s@.len(),
                }
            }),
    {
        Self::next_token(&self.s, self.pos)
    }

    /// Parse the single token `ch`; on failure the position is unchanged.
    pub fn parse_char(&mut self, ch: u8) -> (r: Option<()>)
        requires
            old(self).wf(),
        ensures
            final(self).wf(),
            final(self).s == old(self).s,
            (match spec_parse_char(old(self).s@, old(self).pos as int, ch) {
                Some(p) => r is Some && final(self).pos == p,
                None => r is None && final(self).pos == old(self).pos,
            }),
    {
        match Self::char_at(&self.s, self.pos, ch) {
            Some(p) => {
                self.pos = p;
                Some(())
            },
            None => None,
        }
    }

    /// Parse one quoted string, returning the bytes between the quotes; on
    /// failure the position is unchanged.
    pub fn parse_lit_str(&mut self) -> (r: Option<Vec<u8>>)
        requires
            old(self).wf(),
        ensures
            final(self).wf(),
            final(self).s == old(self).s,
            (match spec_parse_lit_str(old(self).s@, old(self).pos as int) {
                Some(kp) => r matches Some(v) && v@ == kp.0 && final(self).pos == kp.1,
                None => r is None && final(self).pos == old(self).pos,
            }),
    {
        match Self::lit_str_at(&self.s, self.pos) {
            Some((v, p)) => {
                self.pos = p;
                Some(v)
            },
            None => None,
        }
    }

    /// Parse one value, a quoted string or a brace group; on failure the
    /// position is unchanged.
    pub fn parse_value(&mut self) -> (r: Option<VdfValue>)
        requires
            old(self).wf(),
        ensures
            final(self).wf(),
            final(self).s == old(self).s,
            (match spec_parse_value(old(self).s@, old(self).pos as int) {
                Some(vp) => r matches Some(v) && v@ == vp.0 && final(self).pos == vp.1,
                None => r is None && final(self).pos == old(self).pos,
            }),
    {
        match Self::value_at(&self.s, self.pos) {
            Some((v, p)) => {
                self.pos = p;
                Some(v)
            },
            None => None,
        }
    }

    /// Parse one brace-delimited group into a mapping; on failure the
    /// position is restored to where the attempt began.
    pub fn parse_map(&mut self) -> (r: Option<Vdf>)
        requires
            old(self).wf(),
        ensures
            final(self).wf(),
            final(self).s == old(self).s,
            (match spec_parse_map(old(self).s@, old(self).pos as int) {
                Some(mp) => r matches Some(m) && m@ == mp.0 && final(self).pos == mp.1,
                None => r is None && final(self).pos == old(self).pos,
            }),
    {
        match Self::map_at(&self.s, self.pos) {
            Some((m, p)) => {
                self.pos = p;
                Some(m)
            },
            None => None,
        }
    }

    /// Parse one key/value entry; on failure the position is unchanged.
    pub fn parse_entry(&mut self) -> (r: Option<(Vec<u8>, VdfValue)>)
        requires
            old(self).wf(),
        ensures
            final(self).wf(),
            final(self).s == old(self).s,
            (match spec_parse_entry(old(self).s@, old(self).pos as int) {
                Some(kvp) => r matches Some(kv) && kv.0@ == kvp.0 && kv.1@ == kvp.1
                    && final(self).pos == kvp.2,
                None => r is None && final(self).pos == old(self).pos,
            }),
    {
        match Self::entry_at(&self.s, self.pos) {
            Some((k, v, p)) => {
                self.pos = p;
                Some((k, v))
            },
            None => None,
        }
    }

    /// Parse the entire remaining input as a sequence of entries folded
    /// into one mapping. Fails when anything other than well-formed
    /// entries followed by whitespace remains, a stray closing brace
    /// included; on failure the position is unchanged.
    pub fn parse_entries(&mut self) -> (r: Option<Vdf>)
        requires
            old(self).wf(),
        ensures
            final(self).wf(),
            final(self).s == old(self).s,
            (match spec_parse_document(old(self).s@, old(self).pos as int) {
                Some(ep) => r matches Some(m) && m@ == ep.0 && final(self).pos == ep.1,
                None => r is None && final(self).pos == old(self).pos,
            }),
    {
        match Self::entries_at(&self.s, self.pos) {
            Some((m, p)) => match Self::next_token(&self.s, p) {
                None => {
                    self.pos = p;
                    Some(m)
                },
                Some(_) => None,
            },
            None => None,
        }
    }
}

/// Parsing is deterministic: the tree a text parses to is a function of
/// the text alone, so parsing equal inputs, or the same input twice,
/// yields structurally equal trees.
pub proof fn lemma_parse_deterministic(s1: Seq<u8>, s2: Seq<u8>)
    requires
        s1 == s2,
    ensures
        spec_parse_document(s1, 0) == spec_parse_document(s2, 0),
{
}

/// The bytes have no quote, so they can stand between quotes in the
/// textual grammar.
pub open spec fn quote_free(b: Seq<u8>) -> bool {
    forall|i: int| 0 <= i < b.len() ==> b[i] != QUOTE
}

/// A tree the textual grammar can represent: no quote byte inside any
/// key or leaf, and unique keys at every level.
pub open spec fn wf_value(v: SpecValue) -> bool
    decreases v,
{
    match v {
        SpecValue::Leaf(b) => quote_free(b),
        SpecValue::Node(es) => unique_keys(es) && wf_entry_list(es),
    }
}

/// Every entry holds a quote-free key and a well-formed value.
pub open spec fn wf_entry_list(es: SpecEntries) -> bool
    decreases es,
{
    if es.len() == 0 {
        true
    } else {
        quote_free(es[0].0) && wf_value(es[0].1) && wf_entry_list(es.drop_first())
    }
}

/// The text that writes one value: a quoted string for a leaf, a brace
/// group for a node.
pub open spec fn spec_write_value(v: SpecValue) -> Seq<u8>
    decreases v,
{
    match v {
        SpecValue::Leaf(b) => seq![QUOTE] + b + seq![QUOTE],
        SpecValue::Node(es) => seq![LBRACE] + spec_write_entries(es) + seq![RBRACE],
    }
}

/// The text that writes a sequence of entries: each key quoted, followed
/// by its value.
pub open spec fn spec_write_entries(es: SpecEntries) -> Seq<u8>
    decreases es,
{
    if es.len() == 0 {
        Seq::empty()
    } else {
        seq![QUOTE] + es[0].0 + seq![QUOTE] + spec_write_value(es[0].1) + spec_write_entries(
            es.drop_first(),
        )
    }
}

/// When `q` is the first position at or after `pos` holding `c`, the
/// search finds it.
proof fn lemma_find_byte_at(s: Seq<u8>, pos: int, q: int, c: u8)
    requires
        0 <= pos <= q < s.len(),
        s[q] == c,
        forall|j: int| pos <= j < q ==> s[j] != c,
    ensures
        find_byte(s, pos, c) == Some(q),
    decreases q - pos,
{
    if pos < q {
        lemma_find_byte_at(s, pos + 1, q, c);
    }
}

/// A quoted string written at `pos` parses back to its contents.
proof fn lemma_parse_lit_at(s: Seq<u8>, pos: int, k: Seq<u8>)
    requires
        0 <= pos,
        pos + k.len() + 2 <= s.len(),
        s[pos] == QUOTE,
        forall|t: int| 0 <= t < k.len() ==> s[pos + 1 + t] == k[t],
        s[pos + 1 + k.len()] == QUOTE,
        quote_free(k),
    ensures
        spec_parse_lit_str(s, pos) == Some((k, pos + k.len() + 2)),
{
    assert(skip_ws(s, pos) == pos);
    assert forall|j: int| pos + 1 <= j < pos + 1 + k.len() implies s[j] != QUOTE by {
        assert(s[pos + 1 + (j - pos - 1)] == k[j - pos - 1]);
    }
    lemma_find_byte_at(s, pos + 1, pos + 1 + k.len(), QUOTE);
    assert(s.subrange(pos + 1, pos + 1 + k.len()) =~= k);
}

/// A value written at `pos` parses back to itself.
proof fn lemma_rt_value(s: Seq<u8>, pos: int, v: SpecValue)
    requires
        wf_value(v),
        0 <= pos,
        pos + spec_write_value(v).len() <= s.len(),
        forall|t: int|
            0 <= t < spec_write_value(v).len() ==> s[pos + t] == spec_write_value(v)[t],
    ensures
        spec_parse_value(s, pos) == Some((v, pos + spec_write_value(v).len())),
    decreases v,
{
    let w = spec_write_value(v);
    match v {
        SpecValue::Leaf(b) => {
            assert(s[pos + 0] == w[0]);
            assert forall|t: int| 0 <= t < b.len() implies s[pos + 1 + t] == b[t] by {
                assert(s[pos + (1 + t)] == w[1 + t]);
            }
            assert(s[pos + (1 + b.len())] == w[1 + b.len() as int]);
            lemma_parse_lit_at(s, pos, b);
        },
        SpecValue::Node(es) => {
            let we = spec_write_entries(es);
            assert(s[pos + 0] == w[0]);
            assert(s[pos] == LBRACE);
            assert(skip_ws(s, pos) == pos);
            assert(spec_parse_lit_str(s, pos) is None);
            assert(spec_parse_char(s, pos, LBRACE) == Some(pos + 1));
            assert forall|t: int| 0 <= t < we.len() implies s[pos + 1 + t] == we[t] by {
                assert(s[pos + (1 + t)] == w[1 + t]);
            }
            assert(s[pos + (1 + we.len())] == w[1 + we.len() as int]);
            assert(s[pos + 1 + we.len()] == RBRACE);
            assert(Seq::<(Seq<u8>, SpecValue)>::empty() + es =~= es);
            lemma_rt_entries(s, pos + 1, es, Seq::empty());
            let e = pos + 1 + we.len();
            assert(spec_parse_entries(s, pos + 1, Seq::empty()) == Some((es, e)));
            assert(skip_ws(s, e) == e);
            assert(spec_parse_char(s, e, RBRACE) == Some(e + 1));
            assert(spec_parse_map(s, pos) == Some((es, pos + w.len())));
        },
    }
}

/// A sequence of entries written at `pos`, followed by the end of the
/// input or a closing brace, parses back to those entries appended to
/// the accumulator.
proof fn lemma_rt_entries(s: Seq<u8>, pos: int, es: SpecEntries, acc: SpecEntries)
    requires
        wf_entry_list(es),
        unique_keys(acc + es),
        0 <= pos,
        pos + spec_write_entries(es).len() <= s.len(),
        forall|t: int|
            0 <= t < spec_write_entries(es).len() ==> s[pos + t] == spec_write_entries(es)[t],
        pos + spec_write_entries(es).len() == s.len() || s[pos + spec_write_entries(es).len()]
            == RBRACE,
    ensures
        spec_parse_entries(s, pos, acc) == Some((acc + es, pos + spec_write_entries(es).len())),
    decreases es,
{
    let we = spec_write_entries(es);
    if es.len() == 0 {
        assert(skip_ws(s, pos) == pos);
        assert(spec_parse_char(s, pos, QUOTE) is None);
        assert(spec_parse_lit_str(s, pos) is None);
        assert(spec_parse_entry(s, pos) is None);
        assert(acc + es =~= acc);
    } else {
        let k = es[0].0;
        let v = es[0].1;
        let wv = spec_write_value(v);
        let rest = es.drop_first();
        let wr = spec_write_entries(rest);
        assert(we == seq![QUOTE] + k + seq![QUOTE] + wv + wr);
        assert(s[pos + 0] == we[0]);
        assert forall|t: int| 0 <= t < k.len() implies s[pos + 1 + t] == k[t] by {
            assert(s[pos + (1 + t)] == we[1 + t]);
        }
        assert(s[pos + (1 + k.len())] == we[1 + k.len() as int]);
        lemma_parse_lit_at(s, pos, k);
        let p1 = pos + k.len() + 2;
        assert forall|t: int| 0 <= t < wv.len() implies s[p1 + t] == wv[t] by {
            assert(s[pos + (k.len() + 2 + t)] == we[k.len() + 2 + t]);
        }
        lemma_rt_value(s, p1, v);
        let p2 = p1 + wv.len();
        assert(spec_parse_entry(s, pos) == Some((k, v, p2)));
        assert((acc + es)[acc.len() as int] == es[0]);
        assert forall|j: int| 0 <= j < acc.len() implies acc[j].0 != k by {
            assert((acc + es)[j] == acc[j]);
        }
        lemma_key_index_absent(acc, k);
        assert(spec_insert(acc, k, v) == acc.push((k, v)));
        assert forall|t: int| 0 <= t < wr.len() implies s[p2 + t] == wr[t] by {
            assert(s[pos + (k.len() + 2 + wv.len() + t)] == we[k.len() + 2 + wv.len() + t]);
        }
        assert(acc.push((k, v)) + rest =~= acc + es);
        lemma_rt_entries(s, p2, rest, acc.push((k, v)));
        assert(spec_parse_entries(s, p2, acc.push((k, v))) == Some(
            (acc + es, pos + we.len()),
        ));
    }
}

/// Round trip: a tree without quote bytes in its keys or leaf contents
/// and with unique keys at every level, written to the textual grammar
/// and parsed again, yields the same tree: same keys, same leaf
/// contents, same nesting.
pub proof fn lemma_round_trip(es: SpecEntries)
    requires
        unique_keys(es),
        wf_entry_list(es),
    ensures
        spec_parse_entries(spec_write_entries(es), 0, Seq::empty()) == Some(
            (es, spec_write_entries(es).len() as int),
        ),
        spec_parse_document(spec_write_entries(es), 0) == Some(
            (es, spec_write_entries(es).len() as int),
        ),
{
    let s = spec_write_entries(es);
    assert(Seq::<(Seq<u8>, SpecValue)>::empty() + es =~= es);
    lemma_rt_entries(s, 0, es, Seq::empty());
    assert(skip_ws(s, s.len() as int) == s.len());
}

/// `add` appended to `out`.
fn append_bytes(out: Vec<u8>, add: &[u8]) -> (r: Vec<u8>)
    ensures
        r@ == out@ + add@,
{
    let mut o = out;
    let mut i: usize = 0;
    while i < add.len()
        invariant
            i <= add@.len(),
            o@ == out@ + add@.subrange(0, i as int),
        decreases add@.len() - i,
    {
        o.push(add[i]);
        proof {
            assert(o@ =~= out@ + add@.subrange(0, i + 1));
        }
        i = i + 1;
    }
    proof {
        assert(add@.subrange(0, add@.len() as int) =~= add@);
    }
    o
}

/// Write one value in the textual grammar onto `out`.
pub fn write_value(v: &VdfValue, out: Vec<u8>) -> (r: Vec<u8>)
    ensures
        r@ == out@ + spec_write_value(v@),
    decreases v,
{
    match v {
        VdfValue::Value(b) => {
            let mut o = out;
            o.push(QUOTE);
            let mut o = append_bytes(o, b.as_slice());
            o.push(QUOTE);
            proof {
                assert(o@ =~= out@ + spec_write_value(v@));
            }
            o
        },
        VdfValue::Node(m) => {
            let mut o = out;
            o.push(LBRACE);
            let mut o = write_entries(m, o);
            o.push(RBRACE);
            proof {
                assert(o@ =~= out@ + spec_write_value(v@));
            }
            o
        },
    }
}

/// Write a mapping in the textual grammar onto `out`: each key quoted,
/// followed by its value.
pub fn write_entries(m: &Vdf, out: Vec<u8>) -> (r: Vec<u8>)
    ensures
        r@ == out@ + spec_write_entries(m@),
    decreases m,
{
    proof {
        lemma_entries_view(m.entries@);
    }
    let ghost all = m@;
    let mut o = out;
    let mut i: usize = 0;
    proof {
        assert(all.subrange(0, all.len() as int) =~= all);
    }
    while i < m.entries.len()
        invariant
            i <= m.entries@.len(),
            all == m@,
            all.len() == m.entries@.len(),
            forall|j: int| 0 <= j < all.len() ==> all[j] == entry_view(m.entries@[j]),
            out@ + spec_write_entries(all) == o@ + spec_write_entries(
                all.subrange(i as int, all.len() as int),
            ),
        decreases m.entries@.len() - i,
    {
        let ghost suffix = all.subrange(i as int, all.len() as int);
        proof {
            assert(suffix.drop_first() =~= all.subrange(i + 1, all.len() as int));
            assert(suffix[0] == all[i as int]);
        }
        let ghost obefore = o@;
        let mut t = o;
        t.push(QUOTE);
        let mut t = append_bytes(t, m.entries[i].0.as_slice());
        t.push(QUOTE);
        o = write_value(&m.entries[i].1, t);
        proof {
            assert(o@ =~= obefore + (seq![QUOTE] + suffix[0].0 + seq![QUOTE] + spec_write_value(
                suffix[0].1,
            )));
            assert(obefore + spec_write_entries(suffix) =~= o@ + spec_write_entries(
                suffix.drop_first(),
            ));
        }
        i = i + 1;
    }
    proof {
        assert(all.subrange(all.len() as int, all.len() as int) =~= Seq::<(
            Seq<u8>,
            SpecValue,
        )>::empty());
        assert(o@ + Seq::<u8>::empty() =~= o@);
    }
    o
}

} // verus!
