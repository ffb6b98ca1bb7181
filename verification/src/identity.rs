//! Screenshot identities: `<platform>/<group>/<name>[__<variant>]`, where the
//! variant is a set of `key=value` pairs written sorted by key and joined with
//! `,`, and every component is restricted to `[a-z0-9_.-]`.
use vstd::prelude::*;

use crate::text::{
    chars_of, join, join_strings, lemma_str_lt_asymmetric, lemma_str_lt_irreflexive,
    lemma_str_lt_total, lemma_str_lt_transitive, lemma_views_push, owned, push_char, push_str, split, str_lt,
    string_of, text_eq, text_lt, views,
};

verus! {

// ---------------------------------------------------------------------------
// Specification of components
// ---------------------------------------------------------------------------
/// A character that may appear in an identity component.
pub open spec fn is_safe_char(c: char) -> bool {
    ('a' <= c && c <= 'z') || ('0' <= c && c <= '9') || c == '_' || c == '.' || c == '-'
}

/// `"__"` starts at position `i` of `s`.
pub open spec fn dunder_at(s: Seq<char>, i: int) -> bool {
    0 <= i && i + 1 < s.len() && s[i] == '_' && s[i + 1] == '_'
}

/// The first position at or after `i` where `"__"` starts.
pub open spec fn dunder_from(s: Seq<char>, i: int) -> Option<int>
    decreases s.len() - i,
{
    if i < 0 || i + 1 >= s.len() {
        None
    } else if s[i] == '_' && s[i + 1] == '_' {
        Some(i)
    } else {
        dunder_from(s, i + 1)
    }
}

/// The first position at or after `i` that holds `c`.
pub open spec fn char_from(s: Seq<char>, c: char, i: int) -> Option<int>
    decreases s.len() - i,
{
    if i < 0 || i >= s.len() {
        None
    } else if s[i] == c {
        Some(i)
    } else {
        char_from(s, c, i + 1)
    }
}

/// A component that an identity may hold: not empty, not starting with `.`
/// (so neither `.` nor `..`), without `"__"`, made of `[a-z0-9_.-]` only.
pub open spec fn safe_component(s: Seq<char>) -> bool {
    &&& s.len() > 0
    &&& s[0] != '.'
    &&& dunder_from(s, 0) is None
    &&& forall|i: int| 0 <= i < s.len() ==> is_safe_char(#[trigger] s[i])
}

pub proof fn lemma_dunder_from(s: Seq<char>, i: int)
    requires
        0 <= i,
    ensures
        match dunder_from(s, i) {
            None => forall|j: int| i <= j ==> !#[trigger] dunder_at(s, j),
            Some(k) => i <= k && dunder_at(s, k) && forall|j: int|
                i <= j < k ==> !#[trigger] dunder_at(s, j),
        },
    decreases s.len() - i,
{
    if i + 1 < s.len() && !(s[i] == '_' && s[i + 1] == '_') {
        lemma_dunder_from(s, i + 1);
    }
}

pub proof fn lemma_char_from(s: Seq<char>, c: char, i: int)
    requires
        0 <= i,
    ensures
        match char_from(s, c, i) {
            None => forall|j: int| i <= j < s.len() ==> s[j] != c,
            Some(k) => i <= k < s.len() && s[k] == c && forall|j: int| i <= j < k ==> s[j] != c,
        },
    decreases s.len() - i,
{
    if i < s.len() && s[i] != c {
        lemma_char_from(s, c, i + 1);
    }
}

/// `dunder_from` finds `k` when `k` is the first place `"__"` starts.
pub proof fn lemma_dunder_first(s: Seq<char>, k: int)
    requires
        dunder_at(s, k),
        forall|j: int| 0 <= j < k ==> !#[trigger] dunder_at(s, j),
    ensures
        dunder_from(s, 0) == Some(k),
{
    lemma_dunder_from(s, 0);
    match dunder_from(s, 0) {
        None => {
            assert(!dunder_at(s, k));
        },
        Some(m) => {
            if m < k {
                assert(!dunder_at(s, m));
            } else if m > k {
                assert(!dunder_at(s, k));
            }
        },
    }
}

/// `char_from` finds `k` when `k` is the first place `c` occurs.
pub proof fn lemma_char_first(s: Seq<char>, c: char, k: int)
    requires
        0 <= k < s.len(),
        s[k] == c,
        forall|j: int| 0 <= j < k ==> s[j] != c,
    ensures
        char_from(s, c, 0) == Some(k),
{
    lemma_char_from(s, c, 0);
}

// ---------------------------------------------------------------------------
// Variants: key=value pairs kept sorted by key
// ---------------------------------------------------------------------------
/// The pairs after inserting `(k, v)` into a list sorted by key: a pair with
/// key `k` has its value replaced, otherwise the pair goes before the first
/// larger key.
pub open spec fn vinsert(m: Seq<(Seq<char>, Seq<char>)>, k: Seq<char>, v: Seq<char>) -> Seq<
    (Seq<char>, Seq<char>),
>
    decreases m.len(),
{
    if m.len() == 0 {
        seq![(k, v)]
    } else if m[0].0 == k {
        seq![(k, v)] + m.drop_first()
    } else if str_lt(k, m[0].0) {
        seq![(k, v)] + m
    } else {
        seq![m[0]] + vinsert(m.drop_first(), k, v)
    }
}

/// Keys strictly increase along the list (so no key occurs twice).
pub open spec fn keys_sorted(m: Seq<(Seq<char>, Seq<char>)>) -> bool {
    forall|i: int, j: int| 0 <= i < j < m.len() ==> str_lt(#[trigger] m[i].0, #[trigger] m[j].0)
}

/// The value stored under `k`.
pub open spec fn vlookup(m: Seq<(Seq<char>, Seq<char>)>, k: Seq<char>) -> Option<Seq<char>>
    decreases m.len(),
{
    if m.len() == 0 {
        None
    } else if m[0].0 == k {
        Some(m[0].1)
    } else {
        vlookup(m.drop_first(), k)
    }
}

/// Every key of the list is below `k`, so inserting `k` appends.
pub proof fn lemma_vinsert_append(m: Seq<(Seq<char>, Seq<char>)>, k: Seq<char>, v: Seq<char>)
    requires
        forall|i: int| 0 <= i < m.len() ==> str_lt(#[trigger] m[i].0, k),
    ensures
        vinsert(m, k, v) == m.push((k, v)),
    decreases m.len(),
{
    if m.len() > 0 {
        lemma_str_lt_irreflexive(k);
        lemma_str_lt_asymmetric(m[0].0, k);
        assert(str_lt(m[0].0, k));
        let t = m.drop_first();
        assert forall|i: int| 0 <= i < t.len() implies str_lt(#[trigger] t[i].0, k) by {
            assert(t[i] == m[i + 1]);
        }
        lemma_vinsert_append(t, k, v);
        assert(seq![m[0]] + t.push((k, v)) =~= m.push((k, v)));
    }
}

/// The keys of `vinsert(m, k, v)` are those of `m` plus `k`.
pub proof fn lemma_vinsert_keys(m: Seq<(Seq<char>, Seq<char>)>, k: Seq<char>, v: Seq<char>)
    ensures
        forall|x: int|
            0 <= x < vinsert(m, k, v).len() ==> (#[trigger] vinsert(m, k, v)[x]).0 == k || exists|
                y: int,
            | 0 <= y < m.len() && m[y].0 == vinsert(m, k, v)[x].0,
        vinsert(m, k, v).len() >= 1,
    decreases m.len(),
{
    let r = vinsert(m, k, v);
    if m.len() == 0 {
    } else if m[0].0 == k {
        assert forall|x: int| 0 <= x < r.len() implies (#[trigger] r[x]).0 == k || exists|y: int|
            0 <= y < m.len() && m[y].0 == r[x].0 by {
            if x > 0 {
                assert(r[x] == m[x]);
            }
        }
    } else if str_lt(k, m[0].0) {
        assert forall|x: int| 0 <= x < r.len() implies (#[trigger] r[x]).0 == k || exists|y: int|
            0 <= y < m.len() && m[y].0 == r[x].0 by {
            if x > 0 {
                assert(r[x] == m[x - 1]);
            }
        }
    } else {
        let t = m.drop_first();
        lemma_vinsert_keys(t, k, v);
        assert forall|x: int| 0 <= x < r.len() implies (#[trigger] r[x]).0 == k || exists|y: int|
            0 <= y < m.len() && m[y].0 == r[x].0 by {
            if x == 0 {
                assert(m[0].0 == r[0].0);
            } else {
                assert(r[x] == vinsert(t, k, v)[x - 1]);
                if vinsert(t, k, v)[x - 1].0 != k {
                    let y = choose|y: int| 0 <= y < t.len() && t[y].0 == vinsert(t, k, v)[x - 1].0;
                    assert(m[y + 1] == t[y]);
                }
            }
        }
    }
}

/// Inserting keeps the keys sorted.
pub proof fn lemma_vinsert_sorted(m: Seq<(Seq<char>, Seq<char>)>, k: Seq<char>, v: Seq<char>)
    requires
        keys_sorted(m),
    ensures
        keys_sorted(vinsert(m, k, v)),
    decreases m.len(),
{
    let r = vinsert(m, k, v);
    if m.len() == 0 {
    } else if m[0].0 == k {
        assert forall|i: int, j: int| 0 <= i < j < r.len() implies str_lt(
            #[trigger] r[i].0,
            #[trigger] r[j].0,
        ) by {
            assert(r[j] == m[j]);
            if i > 0 {
                assert(r[i] == m[i]);
            } else {
                assert(str_lt(m[0].0, m[j].0));
            }
        }
    } else if str_lt(k, m[0].0) {
        assert forall|i: int, j: int| 0 <= i < j < r.len() implies str_lt(
            #[trigger] r[i].0,
            #[trigger] r[j].0,
        ) by {
            assert(r[j] == m[j - 1]);
            if i > 0 {
                assert(r[i] == m[i - 1]);
            } else if j > 1 {
                assert(str_lt(m[0].0, m[j - 1].0));
                lemma_str_lt_transitive(k, m[0].0, m[j - 1].0);
            }
        }
    } else {
        let t = m.drop_first();
        assert(keys_sorted(t)) by {
            assert forall|i: int, j: int| 0 <= i < j < t.len() implies str_lt(
                #[trigger] t[i].0,
                #[trigger] t[j].0,
            ) by {
                assert(t[i] == m[i + 1]);
                assert(t[j] == m[j + 1]);
            }
        }
        lemma_vinsert_sorted(t, k, v);
        lemma_vinsert_keys(t, k, v);
        lemma_str_lt_total(k, m[0].0);
        let rt = vinsert(t, k, v);
        assert forall|i: int, j: int| 0 <= i < j < r.len() implies str_lt(
            #[trigger] r[i].0,
            #[trigger] r[j].0,
        ) by {
            assert(r[j] == rt[j - 1]);
            if i > 0 {
                assert(r[i] == rt[i - 1]);
            } else {
                assert(r[0] == m[0]);
                if rt[j - 1].0 != k {
                    let y = choose|y: int| 0 <= y < t.len() && t[y].0 == rt[j - 1].0;
                    assert(m[y + 1] == t[y]);
                    assert(str_lt(m[0].0, m[y + 1].0));
                }
            }
        }
    }
}

/// A variant: `key=value` pairs sorted by key, each key once.
#[derive(Debug, PartialEq, Eq)]
pub struct Variant {
    entries: Vec<(String, String)>,
}

/// The text of stored pairs.
pub open spec fn pair_views(v: Seq<(String, String)>) -> Seq<(Seq<char>, Seq<char>)> {
    v.map_values(|p: (String, String)| (p.0@, p.1@))
}

impl View for Variant {
    type V = Seq<(Seq<char>, Seq<char>)>;

    closed spec fn view(&self) -> Seq<(Seq<char>, Seq<char>)> {
        pair_views(self.entries@)
    }
}

impl Variant {
    /// The keys of a variant strictly ascend, so each key occurs once.
    #[verifier::type_invariant]
    closed spec fn keys_ascend(self) -> bool {
        keys_sorted(pair_views(self.entries@))
    }

    /// The empty variant.
    pub fn new() -> (r: Variant)
        ensures
            r@ == Seq::<(Seq<char>, Seq<char>)>::empty(),
    {
        let r = Variant { entries: Vec::new() };
        assert(r@ =~= Seq::<(Seq<char>, Seq<char>)>::empty());
        r
    }

    /// Whether there are no pairs.
    pub fn is_empty(&self) -> (r: bool)
        ensures
            r == (self@.len() == 0),
    {
        self.entries.len() == 0
    }

    /// The number of pairs; the keys strictly ascend.
    pub fn len(&self) -> (r: usize)
        ensures
            r == self@.len(),
            keys_sorted(self@),
    {
        proof {
            use_type_invariant(self);
        }
        self.entries.len()
    }

    /// The key of pair `i`.
    pub fn key(&self, i: usize) -> (r: &String)
        requires
            i < self@.len(),
        ensures
            r@ == self@[i as int].0,
    {
        &self.entries[i].0
    }

    /// The value of pair `i`.
    pub fn value(&self, i: usize) -> (r: &String)
        requires
            i < self@.len(),
        ensures
            r@ == self@[i as int].1,
    {
        &self.entries[i].1
    }

    /// The value stored under `key`.
    pub fn get(&self, key: &str) -> (r: Option<&String>)
        ensures
            match r {
                Some(s) => vlookup(self@, key@) == Some(s@),
                None => vlookup(self@, key@) is None,
            },
    {
        let mut i: usize = 0;
        assert(self@.skip(0) =~= self@);
        while i < self.entries.len()
            invariant
                0 <= i <= self.entries.len(),
                vlookup(self@, key@) == vlookup(self@.skip(i as int), key@),
            decreases self.entries.len() - i,
        {
            assert(self@.skip(i as int)[0] == self@[i as int]);
            assert(self@.skip(i as int).drop_first() =~= self@.skip(i + 1));
            if text_eq(self.entries[i].0.as_str(), key) {
                return Some(&self.entries[i].1);
            }
            i = i + 1;
        }
        None
    }

    /// Stores `value` under `key`, replacing an earlier value of that key.
    pub fn insert(&mut self, key: String, value: String)
        ensures
            final(self)@ == vinsert(old(self)@, key@, value@),
            keys_sorted(final(self)@),
    {
        proof {
            use_type_invariant(&*self);
        }
        let ghost m = self@;
        let mut entries: Vec<(String, String)> = Vec::new();
        std::mem::swap(&mut entries, &mut self.entries);
        assert(pair_views(entries@) == m);
        let mut i: usize = 0;
        assert(m.skip(0) =~= m);
        assert(m.take(0) + vinsert(m, key@, value@) =~= vinsert(m, key@, value@));
        while i < entries.len() && text_lt(entries[i].0.as_str(), key.as_str())
            invariant
                0 <= i <= entries.len(),
                pair_views(entries@) == m,
                vinsert(m, key@, value@) == m.take(i as int) + vinsert(
                    m.skip(i as int),
                    key@,
                    value@,
                ),
            decreases entries.len() - i,
        {
            proof {
                let s = m.skip(i as int);
                assert(s[0] == m[i as int]);
                assert(s.drop_first() =~= m.skip(i + 1));
                lemma_str_lt_irreflexive(key@);
                lemma_str_lt_asymmetric(m[i as int].0, key@);
                assert(m.take(i as int) + (seq![m[i as int]] + vinsert(m.skip(i + 1), key@, value@))
                    =~= m.take(i + 1) + vinsert(m.skip(i + 1), key@, value@));
            }
            i = i + 1;
        }
        if i == entries.len() {
            entries.push((key, value));
            assert(m.skip(i as int) =~= Seq::<(Seq<char>, Seq<char>)>::empty());
            assert(m.take(i as int) =~= m);
            assert(pair_views(entries@) =~= m.push((key@, value@)));
            assert(m.take(i as int) + seq![(key@, value@)] =~= m.push((key@, value@)));
        } else if text_eq(entries[i].0.as_str(), key.as_str()) {
            proof {
                let s = m.skip(i as int);
                assert(s[0] == m[i as int]);
                assert(s.drop_first() =~= m.skip(i + 1));
            }
            entries.set(i, (key, value));
            assert(pair_views(entries@) =~= m.take(i as int) + (seq![(key@, value@)] + m.skip(i + 1)));
        } else {
            proof {
                let s = m.skip(i as int);
                assert(s[0] == m[i as int]);
                lemma_str_lt_total(key@, m[i as int].0);
            }
            entries.insert(i, (key, value));
            assert(pair_views(entries@) =~= m.take(i as int) + (seq![(key@, value@)] + m.skip(i as int)));
        }
        proof {
            lemma_vinsert_sorted(m, key@, value@);
        }
        self.entries = entries;
    }

    /// A copy holding the same pairs.
    pub fn duplicate(&self) -> (r: Variant)
        ensures
            r@ == self@,
    {
        proof {
            use_type_invariant(self);
        }
        let mut entries: Vec<(String, String)> = Vec::new();
        let mut i: usize = 0;
        while i < self.entries.len()
            invariant
                0 <= i <= self.entries.len(),
                pair_views(entries@) == self@.take(i as int),
            decreases self.entries.len() - i,
        {
            let ghost before = entries@;
            let k = self.entries[i].0.clone();
            let v = self.entries[i].1.clone();
            assert(k@ == self@[i as int].0 && v@ == self@[i as int].1);
            entries.push((k, v));
            assert(entries@ == before.push((k, v)));
            i = i + 1;
            assert(self@.take(i as int) =~= self@.take(i - 1).push(self@[i - 1]));
            assert(pair_views(entries@) =~= self@.take(
                i as int,
            ));
        }
        let r = Variant { entries };
        assert(self@.take(self@.len() as int) =~= self@);
        r
    }
}

impl Clone for Variant {
    fn clone(&self) -> (r: Variant)
        ensures
            r@ == self@,
    {
        self.duplicate()
    }
}

// ---------------------------------------------------------------------------
// Identities
// ---------------------------------------------------------------------------
/// Why a string is not an identity.
#[derive(Debug, Clone, PartialEq, Eq)]
pub enum IdentityError {
    /// Fewer than two non-empty `/`-separated segments.
    Empty(String),
    /// A component outside `[a-z0-9_.-]`, empty, starting with `.`, or
    /// holding `__`.
    UnsafeComponent(String),
    /// A variant pair without `=`.
    BadVariant(String),
}

/// The mathematical form of an [`IdentityError`].
pub enum IdentityFault {
    Empty(Seq<char>),
    UnsafeComponent(Seq<char>),
    BadVariant(Seq<char>),
}

impl View for IdentityError {
    type V = IdentityFault;

    open spec fn view(&self) -> IdentityFault {
        match self {
            IdentityError::Empty(s) => IdentityFault::Empty(s@),
            IdentityError::UnsafeComponent(s) => IdentityFault::UnsafeComponent(s@),
            IdentityError::BadVariant(s) => IdentityFault::BadVariant(s@),
        }
    }
}

/// The text an [`IdentityError`] is shown with.
pub open spec fn fault_message(f: IdentityFault) -> Seq<char> {
    match f {
        IdentityFault::Empty(s) => "identity has no platform segment: "@ + s,
        IdentityFault::UnsafeComponent(s) => "identity component is not in [a-z0-9_.-] or is reserved: "@
            + s,
        IdentityFault::BadVariant(s) => "variant pair is not key=value: "@ + s,
    }
}

impl IdentityError {
    /// The human-readable message of this error.
    pub fn message(&self) -> (r: String)
        ensures
            r@ == fault_message(self@),
    {
        let mut r = String::new();
        match self {
            IdentityError::Empty(s) => {
                push_str(&mut r, "identity has no platform segment: ");
                push_str(&mut r, s.as_str());
            },
            IdentityError::UnsafeComponent(s) => {
                push_str(&mut r, "identity component is not in [a-z0-9_.-] or is reserved: ");
                push_str(&mut r, s.as_str());
            },
            IdentityError::BadVariant(s) => {
                push_str(&mut r, "variant pair is not key=value: ");
                push_str(&mut r, s.as_str());
            },
        }
        assert(r@ =~= fault_message(self@));
        r
    }
}

/// The identity of one screenshot.
#[derive(Debug, Clone, PartialEq, Eq)]
pub struct Identity {
    pub platform: String,
    pub group: Vec<String>,
    pub name: String,
    pub variant: Variant,
}

/// The mathematical form of an [`Identity`].
pub struct IdentityView {
    pub platform: Seq<char>,
    pub group: Seq<Seq<char>>,
    pub name: Seq<char>,
    pub variant: Seq<(Seq<char>, Seq<char>)>,
}

impl View for Identity {
    type V = IdentityView;

    open spec fn view(&self) -> IdentityView {
        IdentityView {
            platform: self.platform@,
            group: views(self.group@),
            name: self.name@,
            variant: self.variant@,
        }
    }
}

/// The non-empty pieces of `ps`, in order.
pub open spec fn nonempty(ps: Seq<Seq<char>>) -> Seq<Seq<char>>
    decreases ps.len(),
{
    if ps.len() == 0 {
        Seq::empty()
    } else {
        let r = nonempty(ps.drop_last());
        if ps.last().len() > 0 {
            r.push(ps.last())
        } else {
            r
        }
    }
}

/// The segments of an identity string: its non-empty `/`-separated pieces.
pub open spec fn segments(s: Seq<char>) -> Seq<Seq<char>> {
    nonempty(split(s, '/'))
}

/// Reads `key=value` pairs in order into a sorted variant.
pub open spec fn parse_pairs(ps: Seq<Seq<char>>) -> Result<Seq<(Seq<char>, Seq<char>)>, IdentityFault>
    decreases ps.len(),
{
    if ps.len() == 0 {
        Ok(Seq::empty())
    } else {
        match parse_pairs(ps.drop_last()) {
            Err(e) => Err(e),
            Ok(m) => {
                let pair = ps.last();
                match char_from(pair, '=', 0) {
                    None => Err(IdentityFault::BadVariant(pair)),
                    Some(j) => {
                        let k = pair.take(j);
                        let v = pair.skip(j + 1);
                        if !safe_component(k) {
                            Err(IdentityFault::UnsafeComponent(k))
                        } else if !safe_component(v) {
                            Err(IdentityFault::UnsafeComponent(v))
                        } else {
                            Ok(vinsert(m, k, v))
                        }
                    },
                }
            },
        }
    }
}

/// The first component of `gs` that is not safe.
pub open spec fn first_unsafe(gs: Seq<Seq<char>>) -> Option<Seq<char>>
    decreases gs.len(),
{
    if gs.len() == 0 {
        None
    } else if !safe_component(gs[0]) {
        Some(gs[0])
    } else {
        first_unsafe(gs.drop_first())
    }
}

/// The name part of a stem: everything before the first `"__"`.
pub open spec fn stem_name(stem: Seq<char>) -> Seq<char> {
    match dunder_from(stem, 0) {
        Some(i) => stem.take(i),
        None => stem,
    }
}

/// The variant read from a stem: the pairs after the first `"__"`.
pub open spec fn stem_variant(stem: Seq<char>) -> Result<Seq<(Seq<char>, Seq<char>)>, IdentityFault> {
    match dunder_from(stem, 0) {
        Some(i) => parse_pairs(split(stem.skip(i + 2), ',')),
        None => Ok(Seq::empty()),
    }
}

/// What `Identity::parse` gives for the text `s`. Errors come in this order:
/// too few segments; the variant's pairs, in order; the platform; the name;
/// the group components, in order.
pub open spec fn parse_identity(s: Seq<char>) -> Result<IdentityView, IdentityFault> {
    let segs = segments(s);
    if segs.len() < 2 {
        Err(IdentityFault::Empty(s))
    } else {
        let stem = segs.last();
        let platform = segs[0];
        let group = segs.subrange(1, segs.len() - 1);
        let name = stem_name(stem);
        match stem_variant(stem) {
            Err(e) => Err(e),
            Ok(m) => if !safe_component(platform) {
                Err(IdentityFault::UnsafeComponent(platform))
            } else if !safe_component(name) {
                Err(IdentityFault::UnsafeComponent(name))
            } else {
                match first_unsafe(group) {
                    Some(g) => Err(IdentityFault::UnsafeComponent(g)),
                    None => Ok(IdentityView { platform, group, name, variant: m }),
                }
            },
        }
    }
}

/// `k=v` for one pair.
pub open spec fn pair_text(p: (Seq<char>, Seq<char>)) -> Seq<char> {
    p.0 + seq!['='] + p.1
}

/// The `k=v` texts of the pairs, in stored order.
pub open spec fn pair_texts(m: Seq<(Seq<char>, Seq<char>)>) -> Seq<Seq<char>> {
    m.map_values(|p: (Seq<char>, Seq<char>)| pair_text(p))
}

/// The variant written out: `k=v` pairs in stored order, joined with `,`.
pub open spec fn encoded(m: Seq<(Seq<char>, Seq<char>)>) -> Seq<char> {
    join(pair_texts(m), seq![','])
}

/// The stem: the name, followed by `__` and the encoded variant when there is
/// a variant.
pub open spec fn stem_of(v: IdentityView) -> Seq<char> {
    if v.variant.len() == 0 {
        v.name
    } else {
        v.name + seq!['_', '_'] + encoded(v.variant)
    }
}

/// The `/`-separated parts of the id: platform, group components, stem.
pub open spec fn id_parts(v: IdentityView) -> Seq<Seq<char>> {
    seq![v.platform] + v.group + seq![stem_of(v)]
}

/// The canonical text of an identity.
pub open spec fn id_of(v: IdentityView) -> Seq<char> {
    join(id_parts(v), seq!['/'])
}

/// An identity value that its own text reads back as: every component safe,
/// keys sorted, and a name that does not end in `_` when a variant follows
/// (`a_` with variant `k=v` would be written `a___k=v` and read back as name
/// `a` with key `_k`).
pub open spec fn well_formed(v: IdentityView) -> bool {
    &&& safe_component(v.platform)
    &&& safe_component(v.name)
    &&& forall|i: int| 0 <= i < v.group.len() ==> safe_component(#[trigger] v.group[i])
    &&& forall|i: int|
        0 <= i < v.variant.len() ==> safe_component((#[trigger] v.variant[i]).0) && safe_component(
            v.variant[i].1,
        )
    &&& keys_sorted(v.variant)
    &&& v.variant.len() > 0 ==> v.name.last() != '_'
}

/// Whether `path` ends with `.png`.
pub open spec fn has_png_suffix(path: Seq<char>) -> bool {
    path.len() >= 4 && path.skip(path.len() - 4) == ".png"@
}

/// `path` without a trailing `.png`.
pub open spec fn strip_png(path: Seq<char>) -> Seq<char> {
    if has_png_suffix(path) {
        path.take(path.len() - 4)
    } else {
        path
    }
}

/// `s` with every `\` replaced by `/`.
pub open spec fn slashes(s: Seq<char>) -> Seq<char> {
    s.map_values(
        |c: char|
            if c == '\\' {
                '/'
            } else {
                c
            },
    )
}

// ---------------------------------------------------------------------------
// Executable parsing
// ---------------------------------------------------------------------------
/// Whether `c` may appear in a component.
pub fn safe_char(c: char) -> (b: bool)
    ensures
        b == is_safe_char(c),
{
    ('a' <= c && c <= 'z') || ('0' <= c && c <= '9') || c == '_' || c == '.' || c == '-'
}

/// The first position at or after `from` where `"__"` starts.
fn find_dunder(cs: &Vec<char>, from: usize) -> (r: Option<usize>)
    requires
        from <= cs.len(),
    ensures
        match r {
            Some(i) => dunder_from(cs@, from as int) == Some(i as int),
            None => dunder_from(cs@, from as int) is None,
        },
{
    let mut i = from;
    while i < cs.len() && i + 1 < cs.len() && !(cs[i] == '_' && cs[i + 1] == '_')
        invariant
            from <= i <= cs.len(),
            dunder_from(cs@, from as int) == dunder_from(cs@, i as int),
        decreases cs.len() - i,
    {
        i = i + 1;
    }
    if i < cs.len() && i + 1 < cs.len() {
        Some(i)
    } else {
        None
    }
}

/// The first position of `c` in `cs`.
fn find_char(cs: &Vec<char>, c: char) -> (r: Option<usize>)
    ensures
        match r {
            Some(i) => char_from(cs@, c, 0) == Some(i as int),
            None => char_from(cs@, c, 0) is None,
        },
{
    let mut i: usize = 0;
    while i < cs.len() && cs[i] != c
        invariant
            0 <= i <= cs.len(),
            char_from(cs@, c, 0) == char_from(cs@, c, i as int),
        decreases cs.len() - i,
    {
        i = i + 1;
    }
    if i < cs.len() {
        Some(i)
    } else {
        None
    }
}

/// The pieces of `cs[lo..]` split at `sep`.
pub fn split_pieces(cs: &Vec<char>, lo: usize, sep: char) -> (r: Vec<String>)
    requires
        lo <= cs.len(),
    ensures
        views(r@) == split(cs@.skip(lo as int), sep),
{
    let mut done: Vec<String> = Vec::new();
    let mut cur = String::new();
    let mut i = lo;
    assert(cs@.subrange(lo as int, lo as int) =~= Seq::<char>::empty());
    assert(views(done@).push(cur@) =~= seq![Seq::<char>::empty()]);
    while i < cs.len()
        invariant
            lo <= i <= cs.len(),
            views(done@).push(cur@) == split(cs@.subrange(lo as int, i as int), sep),
        decreases cs.len() - i,
    {
        let c = cs[i];
        let ghost before = cs@.subrange(lo as int, i as int);
        let ghost after = cs@.subrange(lo as int, i + 1);
        assert(after.drop_last() =~= before);
        assert(after.last() == c);
        if c == sep {
            let mut piece = String::new();
            std::mem::swap(&mut piece, &mut cur);
            done.push(piece);
            assert(views(done@).push(cur@) =~= split(before, sep).push(Seq::empty()));
        } else {
            let ghost old_done = views(done@);
            push_char(&mut cur, c);
            assert(views(done@).push(cur@) =~= split(before, sep).update(
                split(before, sep).len() - 1,
                split(before, sep).last().push(c),
            ));
        }
        i = i + 1;
    }
    done.push(cur);
    assert(cs@.subrange(lo as int, cs.len() as int) =~= cs@.skip(lo as int));
    assert(views(done@) =~= split(cs@.skip(lo as int), sep));
    done
}

/// The non-empty strings of `pieces`, in order.
fn keep_nonempty(pieces: Vec<String>) -> (r: Vec<String>)
    ensures
        views(r@) == nonempty(views(pieces@)),
{
    let mut r: Vec<String> = Vec::new();
    let mut i: usize = 0;
    while i < pieces.len()
        invariant
            0 <= i <= pieces.len(),
            views(r@) == nonempty(views(pieces@).take(i as int)),
        decreases pieces.len() - i,
    {
        let ghost t = views(pieces@).take(i + 1);
        assert(t.drop_last() =~= views(pieces@).take(i as int));
        assert(t.last() == pieces@[i as int]@);
        if pieces[i].as_str().is_empty() {
        } else {
            r.push(pieces[i].clone());
            assert(views(r@) =~= nonempty(views(pieces@).take(i as int)).push(pieces@[i as int]@));
        }
        i = i + 1;
    }
    assert(views(pieces@).take(pieces.len() as int) =~= views(pieces@));
    r
}

/// Checks that `value` may be an identity component.
pub fn check_component(value: &String) -> (r: Result<(), IdentityError>)
    ensures
        r is Ok <==> safe_component(value@),
        r matches Err(e) ==> e@ == IdentityFault::UnsafeComponent(value@),
{
    let cs = chars_of(value.as_str());
    let mut ok = cs.len() > 0 && cs[0] != '.';
    if ok {
        ok = find_dunder(&cs, 0).is_none();
    }
    if ok {
        let mut i: usize = 0;
        while i < cs.len()
            invariant
                0 <= i <= cs.len(),
                ok ==> forall|j: int| 0 <= j < i ==> is_safe_char(#[trigger] cs@[j]),
                !ok ==> exists|j: int| 0 <= j < cs.len() && !is_safe_char(#[trigger] cs@[j]),
            decreases cs.len() - i,
        {
            if !safe_char(cs[i]) {
                ok = false;
            }
            i = i + 1;
        }
    }
    if ok {
        Ok(())
    } else {
        Err(IdentityError::UnsafeComponent(value.clone()))
    }
}

/// `parse_pairs` stops at the first bad pair: an error on a prefix is the
/// error of the whole list.
proof fn lemma_parse_pairs_err_prefix(ps: Seq<Seq<char>>, n: int)
    requires
        0 <= n <= ps.len(),
        parse_pairs(ps.take(n)) is Err,
    ensures
        parse_pairs(ps) == parse_pairs(ps.take(n)),
    decreases ps.len() - n,
{
    if n < ps.len() {
        let t = ps.take(n + 1);
        assert(t.drop_last() =~= ps.take(n));
        lemma_parse_pairs_err_prefix(ps, n + 1);
    } else {
        assert(ps.take(n) =~= ps);
    }
}

/// Reads the variant pairs `pieces` in order.
fn read_pairs(pieces: &Vec<String>) -> (r: Result<Variant, IdentityError>)
    ensures
        match r {
            Ok(m) => parse_pairs(views(pieces@)) == Ok::<_, IdentityFault>(m@),
            Err(e) => parse_pairs(views(pieces@)) == Err::<Seq<(Seq<char>, Seq<char>)>, _>(e@),
        },
{
    let ghost ps = views(pieces@);
    let mut m = Variant::new();
    let mut i: usize = 0;
    assert(ps.take(0) =~= Seq::<Seq<char>>::empty());
    while i < pieces.len()
        invariant
            0 <= i <= pieces.len(),
            ps == views(pieces@),
            parse_pairs(ps.take(i as int)) == Ok::<_, IdentityFault>(m@),
        decreases pieces.len() - i,
    {
        let ghost t = ps.take(i + 1);
        assert(t.drop_last() =~= ps.take(i as int));
        assert(t.last() == pieces@[i as int]@);
        let pair = &pieces[i];
        let pc = chars_of(pair.as_str());
        proof {
            lemma_char_from(pc@, '=', 0);
        }
        match find_char(&pc, '=') {
            None => {
                proof {
                    lemma_parse_pairs_err_prefix(ps, i + 1);
                }
                return Err(IdentityError::BadVariant(pair.clone()));
            },
            Some(j) => {
                let k = string_of(&pc, 0, j);
                let v = string_of(&pc, j + 1, pc.len());
                assert(pc@.subrange(0, j as int) =~= pc@.take(j as int));
                assert(pc@.subrange(j + 1, pc@.len() as int) =~= pc@.skip(j + 1));
                match check_component(&k) {
                    Err(e) => {
                        proof {
                            lemma_parse_pairs_err_prefix(ps, i + 1);
                        }
                        return Err(e);
                    },
                    Ok(()) => {},
                }
                match check_component(&v) {
                    Err(e) => {
                        proof {
                            lemma_parse_pairs_err_prefix(ps, i + 1);
                        }
                        return Err(e);
                    },
                    Ok(()) => {},
                }
                m.insert(k, v);
            },
        }
        i = i + 1;
    }
    assert(ps.take(pieces.len() as int) =~= ps);
    Ok(m)
}

/// Checks the group components in order.
fn check_group(group: &Vec<String>) -> (r: Result<(), IdentityError>)
    ensures
        match r {
            Ok(()) => first_unsafe(views(group@)) is None,
            Err(e) => first_unsafe(views(group@)) matches Some(g) && e@
                == IdentityFault::UnsafeComponent(g),
        },
{
    let ghost gs = views(group@);
    let mut i: usize = 0;
    assert(gs.skip(0) =~= gs);
    while i < group.len()
        invariant
            0 <= i <= group.len(),
            gs == views(group@),
            first_unsafe(gs) == first_unsafe(gs.skip(i as int)),
        decreases group.len() - i,
    {
        assert(gs.skip(i as int)[0] == group@[i as int]@);
        assert(gs.skip(i as int).drop_first() =~= gs.skip(i + 1));
        match check_component(&group[i]) {
            Err(e) => {
                return Err(e);
            },
            Ok(()) => {},
        }
        i = i + 1;
    }
    assert(gs.skip(group.len() as int) =~= Seq::<Seq<char>>::empty());
    Ok(())
}

impl Identity {
    /// Reads an identity from its text, `<platform>/<group...>/<stem>`.
    /// Empty segments (from doubled or leading `/`) are skipped. The stem is
    /// split at its first `__` into the name and a `,`-separated list of
    /// `key=value` pairs; a repeated key keeps its last value.
    pub fn parse(id: &str) -> (r: Result<Identity, IdentityError>)
        ensures
            match r {
                Ok(x) => parse_identity(id@) == Ok::<_, IdentityFault>(x@),
                Err(e) => parse_identity(id@) == Err::<IdentityView, _>(e@),
            },
    {
        let cs = chars_of(id);
        let pieces = split_pieces(&cs, 0, '/');
        assert(cs@.skip(0) =~= cs@);
        let mut segs = keep_nonempty(pieces);
        if segs.len() < 2 {
            return Err(IdentityError::Empty(owned(id)));
        }
        let ghost all = views(segs@);
        let stem = segs.pop().unwrap();
        let platform = segs.remove(0);
        assert(views(segs@) =~= all.subrange(1, all.len() - 1));
        let sc = chars_of(stem.as_str());
        let d = find_dunder(&sc, 0);
        let name;
        let variant;
        match d {
            Some(i) => {
                proof {
                    lemma_dunder_from(sc@, 0);
                    assert(dunder_at(sc@, i as int));
                }
                assert(i + 1 < sc.len());
                name = string_of(&sc, 0, i);
                assert(sc@.subrange(0, i as int) =~= sc@.take(i as int));
                let pairs = split_pieces(&sc, i + 2, ',');
                match read_pairs(&pairs) {
                    Err(e) => {
                        return Err(e);
                    },
                    Ok(m) => {
                        variant = m;
                    },
                }
            },
            None => {
                name = stem;
                variant = Variant::new();
            },
        }
        match check_component(&platform) {
            Err(e) => {
                return Err(e);
            },
            Ok(()) => {},
        }
        match check_component(&name) {
            Err(e) => {
                return Err(e);
            },
            Ok(()) => {},
        }
        match check_group(&segs) {
            Err(e) => {
                return Err(e);
            },
            Ok(()) => {},
        }
        let r = Identity { platform, group: segs, name, variant };
        assert(r@ == IdentityView {
            platform: all[0],
            group: all.subrange(1, all.len() - 1),
            name: stem_name(all.last()),
            variant: r@.variant,
        });
        Ok(r)
    }

    /// Reads an identity from a path relative to a layout directory:
    /// a trailing `.png` is dropped and `\` separators become `/`.
    pub fn from_relative_png(path: &str) -> (r: Result<Identity, IdentityError>)
        ensures
            match r {
                Ok(x) => parse_identity(slashes(strip_png(path@))) == Ok::<_, IdentityFault>(x@),
                Err(e) => parse_identity(slashes(strip_png(path@))) == Err::<IdentityView, _>(
                    e@,
                ),
            },
    {
        let cs = chars_of(path);
        let n = cs.len();
        let mut end = n;
        if n >= 4 && cs[n - 4] == '.' && cs[n - 3] == 'p' && cs[n - 2] == 'n' && cs[n - 1] == 'g' {
            end = n - 4;
        }
        proof {
            reveal_strlit(".png");
            assert(".png"@ =~= seq!['.', 'p', 'n', 'g']);
            if n >= 4 {
                let tail = cs@.skip(n - 4);
                assert(tail =~= seq![cs@[n - 4], cs@[n - 3], cs@[n - 2], cs@[n - 1]]);
            }
        }
        let mut t = String::new();
        let mut i: usize = 0;
        while i < end
            invariant
                0 <= i <= end <= n == cs.len(),
                t@ == slashes(cs@.take(i as int)),
            decreases end - i,
        {
            let c = if cs[i] == '\\' {
                '/'
            } else {
                cs[i]
            };
            push_char(&mut t, c);
            i = i + 1;
            assert(slashes(cs@.take(i as int)) =~= slashes(cs@.take(i - 1)).push(c));
        }
        assert(cs@.take(end as int) =~= strip_png(path@));
        Self::parse(t.as_str())
    }

    /// The variant written out: `k=v` pairs sorted by key, joined with `,`.
    pub fn encoded_variant(&self) -> (r: String)
        ensures
            r@ == encoded(self@.variant),
            keys_sorted(self@.variant),
    {
        proof {
            use_type_invariant(&self.variant);
        }
        let mut parts: Vec<String> = Vec::new();
        let mut i: usize = 0;
        assert(pair_texts(self.variant@.take(0)) =~= Seq::<Seq<char>>::empty());
        while i < self.variant.len()
            invariant
                0 <= i <= self.variant@.len(),
                views(parts@) == pair_texts(self.variant@.take(i as int)),
            decreases self.variant@.len() - i,
        {
            let ghost before = parts@;
            let mut p = self.variant.key(i).clone();
            push_char(&mut p, '=');
            push_str(&mut p, self.variant.value(i).as_str());
            assert(p@ =~= pair_text(self.variant@[i as int]));
            parts.push(p);
            proof {
                lemma_views_push(before, p);
            }
            i = i + 1;
            assert(self.variant@.take(i as int) =~= self.variant@.take(i - 1).push(
                self.variant@[i - 1],
            ));
            assert(views(parts@) =~= pair_texts(self.variant@.take(i as int)));
        }
        assert(self.variant@.take(self.variant@.len() as int) =~= self.variant@);
        proof {
            reveal_strlit(",");
        }
        assert(","@ =~= seq![',']);
        join_strings(&parts, ",")
    }

    /// The file stem: the name, plus `__` and the encoded variant when there
    /// is one.
    pub fn stem(&self) -> (r: String)
        ensures
            r@ == stem_of(self@),
    {
        if self.variant.is_empty() {
            self.name.clone()
        } else {
            let mut r = self.name.clone();
            push_str(&mut r, "__");
            let e = self.encoded_variant();
            push_str(&mut r, e.as_str());
            proof {
                reveal_strlit("__");
            }
            assert(r@ =~= stem_of(self@));
            r
        }
    }

    /// The canonical text: platform, group components and stem joined by `/`.
    pub fn id(&self) -> (r: String)
        ensures
            r@ == id_of(self@),
    {
        let mut parts: Vec<String> = Vec::new();
        parts.push(self.platform.clone());
        let mut i: usize = 0;
        while i < self.group.len()
            invariant
                0 <= i <= self.group.len(),
                views(parts@) == seq![self.platform@] + views(self.group@).take(i as int),
            decreases self.group.len() - i,
        {
            let ghost before = parts@;
            let g = self.group[i].clone();
            assert(g@ == self.group@[i as int]@);
            parts.push(g);
            proof {
                lemma_views_push(before, g);
                assert(views(self.group@).take(i + 1) =~= views(self.group@).take(i as int).push(
                    g@,
                ));
            }
            i = i + 1;
            assert(views(parts@) =~= seq![self.platform@] + views(self.group@).take(i as int));
        }
        let ghost before = parts@;
        let st = self.stem();
        parts.push(st);
        proof {
            lemma_views_push(before, st);
        }
        assert(views(self.group@).take(self.group.len() as int) =~= views(self.group@));
        assert(views(parts@) =~= id_parts(self@));
        proof {
            reveal_strlit("/");
        }
        assert("/"@ =~= seq!['/']);
        join_strings(&parts, "/")
    }

    /// The path of the screenshot relative to a profile directory.
    pub fn png_path(&self) -> (r: String)
        ensures
            r@ == id_of(self@) + ".png"@,
    {
        let mut r = self.id();
        push_str(&mut r, ".png");
        r
    }

    /// The path of the sidecar relative to a profile directory.
    pub fn sidecar_path(&self) -> (r: String)
        ensures
            r@ == id_of(self@) + ".json"@,
    {
        let mut r = self.id();
        push_str(&mut r, ".json");
        r
    }

    /// The group components joined by `/`.
    pub fn group_string(&self) -> (r: String)
        ensures
            r@ == join(views(self.group@), "/"@),
    {
        join_strings(&self.group, "/")
    }

    /// A copy of this identity.
    pub fn duplicate(&self) -> (r: Identity)
        ensures
            r@ == self@,
    {
        let mut group: Vec<String> = Vec::new();
        let mut i: usize = 0;
        while i < self.group.len()
            invariant
                0 <= i <= self.group.len(),
                views(group@) == views(self.group@).take(i as int),
            decreases self.group.len() - i,
        {
            let ghost before = group@;
            let g = self.group[i].clone();
            assert(g@ == self.group@[i as int]@);
            group.push(g);
            proof {
                lemma_views_push(before, g);
                assert(views(self.group@).take(i + 1) =~= views(self.group@).take(i as int).push(
                    g@,
                ));
            }
            i = i + 1;
            assert(views(group@) =~= views(self.group@).take(i as int));
        }
        assert(views(self.group@).take(self.group.len() as int) =~= views(self.group@));
        Identity {
            platform: self.platform.clone(),
            group,
            name: self.name.clone(),
            variant: self.variant.duplicate(),
        }
    }
}

} // verus!
