//! The order of identities: platform, then group components, then name, then
//! variant pairs, each compared lexicographically. Sets of identities are
//! kept as strictly increasing vectors in this order.
use vstd::prelude::*;

use crate::identity::{Identity, IdentityView};
use crate::text::{
    chars_of, lemma_str_lt_irreflexive, lemma_str_lt_total, lemma_str_lt_transitive, str_lt,
    views,
};

verus! {

/// `lt` is a strict total order.
pub open spec fn strict_total<A>(lt: spec_fn(A, A) -> bool) -> bool {
    &&& forall|x: A| !#[trigger] lt(x, x)
    &&& forall|x: A, y: A, z: A| #[trigger] lt(x, y) && #[trigger] lt(y, z) ==> lt(x, z)
    &&& forall|x: A, y: A| x != y ==> #[trigger] lt(x, y) || lt(y, x)
}

/// Lexicographic extension of `lt` to sequences; a proper prefix comes first.
pub open spec fn lex<A>(a: Seq<A>, b: Seq<A>, lt: spec_fn(A, A) -> bool) -> bool
    decreases a.len(),
{
    if a.len() == 0 {
        b.len() > 0
    } else if b.len() == 0 {
        false
    } else if a[0] != b[0] {
        lt(a[0], b[0])
    } else {
        lex(a.drop_first(), b.drop_first(), lt)
    }
}

pub proof fn lemma_lex_irreflexive<A>(a: Seq<A>, lt: spec_fn(A, A) -> bool)
    ensures
        !lex(a, a, lt),
    decreases a.len(),
{
    if a.len() > 0 {
        lemma_lex_irreflexive(a.drop_first(), lt);
    }
}

pub proof fn lemma_lex_transitive<A>(a: Seq<A>, b: Seq<A>, c: Seq<A>, lt: spec_fn(A, A) -> bool)
    requires
        strict_total(lt),
        lex(a, b, lt),
        lex(b, c, lt),
    ensures
        lex(a, c, lt),
    decreases a.len(),
{
    if a.len() > 0 && b.len() > 0 && c.len() > 0 {
        if a[0] == b[0] && b[0] == c[0] {
            lemma_lex_transitive(a.drop_first(), b.drop_first(), c.drop_first(), lt);
        } else if a[0] == b[0] {
        } else if b[0] == c[0] {
        } else {
            assert(lt(a[0], b[0]) && lt(b[0], c[0]));
            if a[0] == c[0] {
                assert(lt(a[0], a[0]));
            }
        }
    }
}

pub proof fn lemma_lex_total<A>(a: Seq<A>, b: Seq<A>, lt: spec_fn(A, A) -> bool)
    requires
        strict_total(lt),
    ensures
        a != b ==> lex(a, b, lt) || lex(b, a, lt),
    decreases a.len(),
{
    if a.len() > 0 && b.len() > 0 {
        if a[0] == b[0] {
            lemma_lex_total(a.drop_first(), b.drop_first(), lt);
            if a.drop_first() == b.drop_first() {
                assert(a =~= seq![a[0]] + a.drop_first());
                assert(b =~= seq![b[0]] + b.drop_first());
            }
        }
    } else if a.len() == 0 && b.len() == 0 {
        assert(a =~= b);
    }
}

/// The character order as a function value.
pub open spec fn char_seq_lt() -> spec_fn(Seq<char>, Seq<char>) -> bool {
    |x: Seq<char>, y: Seq<char>| str_lt(x, y)
}

/// Order on `key=value` pairs: by key, then by value.
pub open spec fn pair_lt(p: (Seq<char>, Seq<char>), q: (Seq<char>, Seq<char>)) -> bool {
    if p.0 != q.0 {
        str_lt(p.0, q.0)
    } else {
        str_lt(p.1, q.1)
    }
}

pub open spec fn pair_order() -> spec_fn((Seq<char>, Seq<char>), (Seq<char>, Seq<char>)) -> bool {
    |p: (Seq<char>, Seq<char>), q: (Seq<char>, Seq<char>)| pair_lt(p, q)
}

pub proof fn lemma_char_seq_lt_order()
    ensures
        strict_total(char_seq_lt()),
{
    assert forall|x: Seq<char>| !#[trigger] char_seq_lt()(x, x) by {
        lemma_str_lt_irreflexive(x);
    }
    assert forall|x: Seq<char>, y: Seq<char>, z: Seq<char>|
        #[trigger] char_seq_lt()(x, y) && #[trigger] char_seq_lt()(y, z) implies char_seq_lt()(
        x,
        z,
    ) by {
        lemma_str_lt_transitive(x, y, z);
    }
    assert forall|x: Seq<char>, y: Seq<char>| x != y implies #[trigger] char_seq_lt()(x, y)
        || char_seq_lt()(y, x) by {
        lemma_str_lt_total(x, y);
    }
}

pub proof fn lemma_pair_order()
    ensures
        strict_total(pair_order()),
{
    assert forall|x: (Seq<char>, Seq<char>)| !#[trigger] pair_order()(x, x) by {
        lemma_str_lt_irreflexive(x.1);
    }
    assert forall|x: (Seq<char>, Seq<char>), y: (Seq<char>, Seq<char>), z: (Seq<char>, Seq<char>)|
        #[trigger] pair_order()(x, y) && #[trigger] pair_order()(y, z) implies pair_order()(
        x,
        z,
    ) by {
        if x.0 != y.0 && y.0 != z.0 {
            lemma_str_lt_transitive(x.0, y.0, z.0);
            if x.0 == z.0 {
                lemma_str_lt_transitive(x.0, y.0, x.0);
                lemma_str_lt_irreflexive(x.0);
            }
        } else if x.0 == y.0 && y.0 == z.0 {
            lemma_str_lt_transitive(x.1, y.1, z.1);
        }
    }
    assert forall|x: (Seq<char>, Seq<char>), y: (Seq<char>, Seq<char>)| x != y implies #[trigger] pair_order()(
        x,
        y,
    ) || pair_order()(y, x) by {
        lemma_str_lt_total(x.0, y.0);
        lemma_str_lt_total(x.1, y.1);
    }
}

/// The order of identities, field by field as the struct is declared:
/// platform, group, name, variant.
pub open spec fn ident_lt(a: IdentityView, b: IdentityView) -> bool {
    if a.platform != b.platform {
        str_lt(a.platform, b.platform)
    } else if a.group != b.group {
        lex(a.group, b.group, char_seq_lt())
    } else if a.name != b.name {
        str_lt(a.name, b.name)
    } else {
        lex(a.variant, b.variant, pair_order())
    }
}

pub proof fn lemma_ident_lt_irreflexive(a: IdentityView)
    ensures
        !ident_lt(a, a),
{
    lemma_lex_irreflexive(a.variant, pair_order());
}

pub proof fn lemma_ident_lt_transitive(a: IdentityView, b: IdentityView, c: IdentityView)
    requires
        ident_lt(a, b),
        ident_lt(b, c),
    ensures
        ident_lt(a, c),
{
    lemma_char_seq_lt_order();
    lemma_pair_order();
    if a.platform != b.platform || b.platform != c.platform {
        if a.platform != b.platform && b.platform != c.platform {
            lemma_str_lt_transitive(a.platform, b.platform, c.platform);
            if a.platform == c.platform {
                lemma_str_lt_irreflexive(a.platform);
            }
        }
    } else if a.group != b.group || b.group != c.group {
        if a.group != b.group && b.group != c.group {
            lemma_lex_transitive(a.group, b.group, c.group, char_seq_lt());
            if a.group == c.group {
                lemma_lex_irreflexive(a.group, char_seq_lt());
            }
        }
    } else if a.name != b.name || b.name != c.name {
        if a.name != b.name && b.name != c.name {
            lemma_str_lt_transitive(a.name, b.name, c.name);
            if a.name == c.name {
                lemma_str_lt_irreflexive(a.name);
            }
        }
    } else {
        lemma_lex_transitive(a.variant, b.variant, c.variant, pair_order());
    }
}

pub proof fn lemma_ident_lt_total(a: IdentityView, b: IdentityView)
    ensures
        a != b ==> ident_lt(a, b) || ident_lt(b, a),
{
    lemma_char_seq_lt_order();
    lemma_pair_order();
    lemma_str_lt_total(a.platform, b.platform);
    lemma_lex_total(a.group, b.group, char_seq_lt());
    lemma_str_lt_total(a.name, b.name);
    lemma_lex_total(a.variant, b.variant, pair_order());
}

/// Three-way comparison of two strings: negative, zero or positive as `a`
/// comes before, equals or comes after `b`.
pub fn text_order(a: &str, b: &str) -> (r: i8)
    ensures
        r < 0 <==> str_lt(a@, b@),
        r == 0 <==> a@ == b@,
        r > 0 <==> str_lt(b@, a@),
{
    let x = chars_of(a);
    let y = chars_of(b);
    proof {
        lemma_str_lt_total(a@, b@);
        lemma_str_lt_irreflexive(a@);
        if str_lt(a@, b@) && str_lt(b@, a@) {
            lemma_str_lt_transitive(a@, b@, a@);
        }
    }
    if crate::text::chars_lt(&x, &y) {
        -1
    } else if crate::text::chars_eq(&x, &y) {
        0
    } else {
        1
    }
}

/// Three-way comparison of group component lists.
fn group_order(a: &Vec<String>, b: &Vec<String>) -> (r: i8)
    ensures
        r < 0 <==> lex(views(a@), views(b@), char_seq_lt()),
        r == 0 <==> views(a@) == views(b@),
        r > 0 <==> lex(views(b@), views(a@), char_seq_lt()),
{
    let ghost va = views(a@);
    let ghost vb = views(b@);
    proof {
        lemma_char_seq_lt_order();
        lemma_lex_total(va, vb, char_seq_lt());
        lemma_lex_irreflexive(va, char_seq_lt());
        if lex(va, vb, char_seq_lt()) && lex(vb, va, char_seq_lt()) {
            lemma_lex_transitive(va, vb, va, char_seq_lt());
        }
    }
    let mut i: usize = 0;
    assert(va.skip(0) =~= va && vb.skip(0) =~= vb);
    while i < a.len() && i < b.len()
        invariant
            0 <= i <= a.len(),
            i <= b.len(),
            va == views(a@),
            vb == views(b@),
            va.take(i as int) == vb.take(i as int),
            lex(va, vb, char_seq_lt()) == lex(va.skip(i as int), vb.skip(i as int), char_seq_lt()),
            lex(vb, va, char_seq_lt()) == lex(vb.skip(i as int), va.skip(i as int), char_seq_lt()),
        decreases a.len() - i,
    {
        let c = text_order(a[i].as_str(), b[i].as_str());
        assert(va.skip(i as int)[0] == a@[i as int]@);
        assert(vb.skip(i as int)[0] == b@[i as int]@);
        if c < 0 {
            return -1;
        } else if c > 0 {
            return 1;
        }
        assert(va.skip(i as int).drop_first() =~= va.skip(i + 1));
        assert(vb.skip(i as int).drop_first() =~= vb.skip(i + 1));
        i = i + 1;
        assert(va.take(i as int) =~= va.take(i - 1).push(va[i - 1]));
        assert(vb.take(i as int) =~= vb.take(i - 1).push(vb[i - 1]));
    }
    if i == a.len() && i == b.len() {
        assert(va =~= va.take(i as int));
        assert(vb =~= vb.take(i as int));
        0
    } else if i == a.len() {
        -1
    } else {
        1
    }
}

/// Three-way comparison of variants.
fn variant_order(a: &Identity, b: &Identity) -> (r: i8)
    ensures
        r < 0 <==> lex(a@.variant, b@.variant, pair_order()),
        r == 0 <==> a@.variant == b@.variant,
        r > 0 <==> lex(b@.variant, a@.variant, pair_order()),
{
    let ghost va = a@.variant;
    let ghost vb = b@.variant;
    proof {
        lemma_pair_order();
        lemma_lex_total(va, vb, pair_order());
        lemma_lex_irreflexive(va, pair_order());
        if lex(va, vb, pair_order()) && lex(vb, va, pair_order()) {
            lemma_lex_transitive(va, vb, va, pair_order());
        }
    }
    let mut i: usize = 0;
    assert(va.skip(0) =~= va && vb.skip(0) =~= vb);
    while i < a.variant.len() && i < b.variant.len()
        invariant
            0 <= i <= va.len(),
            i <= vb.len(),
            va == a@.variant,
            vb == b@.variant,
            va.take(i as int) == vb.take(i as int),
            lex(va, vb, pair_order()) == lex(va.skip(i as int), vb.skip(i as int), pair_order()),
            lex(vb, va, pair_order()) == lex(vb.skip(i as int), va.skip(i as int), pair_order()),
        decreases va.len() - i,
    {
        let ck = text_order(a.variant.key(i).as_str(), b.variant.key(i).as_str());
        let cv = text_order(a.variant.value(i).as_str(), b.variant.value(i).as_str());
        assert(va.skip(i as int)[0] == va[i as int]);
        assert(vb.skip(i as int)[0] == vb[i as int]);
        if ck < 0 || (ck == 0 && cv < 0) {
            return -1;
        } else if ck > 0 || (ck == 0 && cv > 0) {
            return 1;
        }
        assert(va[i as int] == vb[i as int]);
        assert(va.skip(i as int).drop_first() =~= va.skip(i + 1));
        assert(vb.skip(i as int).drop_first() =~= vb.skip(i + 1));
        i = i + 1;
        assert(va.take(i as int) =~= va.take(i - 1).push(va[i - 1]));
        assert(vb.take(i as int) =~= vb.take(i - 1).push(vb[i - 1]));
    }
    if i == a.variant.len() && i == b.variant.len() {
        assert(va =~= va.take(i as int));
        assert(vb =~= vb.take(i as int));
        0
    } else if i == a.variant.len() {
        -1
    } else {
        1
    }
}

/// Three-way comparison of identities in the order of [`ident_lt`].
pub fn compare_identities(a: &Identity, b: &Identity) -> (r: i8)
    ensures
        r < 0 <==> ident_lt(a@, b@),
        r == 0 <==> a@ == b@,
        r > 0 <==> ident_lt(b@, a@),
{
    proof {
        lemma_ident_lt_irreflexive(a@);
        lemma_ident_lt_total(a@, b@);
        if ident_lt(a@, b@) && ident_lt(b@, a@) {
            lemma_ident_lt_transitive(a@, b@, a@);
        }
    }
    let c = text_order(a.platform.as_str(), b.platform.as_str());
    if c != 0 {
        return c;
    }
    let c = group_order(&a.group, &b.group);
    if c != 0 {
        return c;
    }
    let c = text_order(a.name.as_str(), b.name.as_str());
    if c != 0 {
        return c;
    }
    variant_order(a, b)
}

/// The views of a vector of identities.
pub open spec fn ident_views(v: Seq<Identity>) -> Seq<IdentityView> {
    v.map_values(|x: Identity| x@)
}

/// Strictly increasing in identity order (so no identity occurs twice).
pub open spec fn ident_sorted(s: Seq<IdentityView>) -> bool {
    forall|i: int, j: int| 0 <= i < j < s.len() ==> ident_lt(#[trigger] s[i], #[trigger] s[j])
}

/// Adds `x` to a strictly increasing vector of identities, keeping it so;
/// nothing changes when an equal identity is already there.
pub fn insert_identity(set: &mut Vec<Identity>, x: Identity)
    requires
        ident_sorted(ident_views(old(set)@)),
    ensures
        ident_sorted(ident_views(final(set)@)),
        forall|y: IdentityView|
            ident_views(final(set)@).contains(y) <==> ident_views(old(set)@).contains(y) || y
                == x@,
{
    let ghost s = ident_views(set@);
    let mut i: usize = 0;
    while i < set.len()
        invariant
            0 <= i <= set.len(),
            s == ident_views(set@),
            ident_sorted(s),
            forall|j: int| 0 <= j < i ==> ident_lt(#[trigger] s[j], x@),
        ensures
            0 <= i <= set.len(),
            s == ident_views(set@),
            forall|j: int| 0 <= j < i ==> ident_lt(#[trigger] s[j], x@),
            i < set.len() ==> ident_lt(x@, s[i as int]),
        decreases set.len() - i,
    {
        let c = compare_identities(&set[i], &x);
        if c == 0 {
            assert(s[i as int] == x@);
            assert(s.contains(x@));
            return;
        } else if c > 0 {
            break;
        }
        i = i + 1;
    }
    proof {
        assert forall|j: int| i <= j < s.len() implies ident_lt(x@, #[trigger] s[j]) by {
            if j > i {
                assert(ident_lt(s[i as int], s[j]));
                lemma_ident_lt_transitive(x@, s[i as int], s[j]);
            }
        }
    }
    set.insert(i, x);
    proof {
        let t = ident_views(set@);
        assert(t =~= s.insert(i as int, x@));
        assert forall|a: int, b: int| 0 <= a < b < t.len() implies ident_lt(
            #[trigger] t[a],
            #[trigger] t[b],
        ) by {
            if b < i {
                assert(t[a] == s[a] && t[b] == s[b]);
            } else if b == i {
                assert(t[a] == s[a]);
            } else if a < i {
                assert(t[a] == s[a] && t[b] == s[b - 1]);
                assert(ident_lt(s[a], x@));
                lemma_ident_lt_transitive(s[a], x@, s[b - 1]);
            } else if a == i {
                assert(t[b] == s[b - 1]);
            } else {
                assert(t[a] == s[a - 1] && t[b] == s[b - 1]);
            }
        }
        assert forall|y: IdentityView| t.contains(y) <==> s.contains(y) || y == x@ by {
            if t.contains(y) {
                let k = choose|k: int| 0 <= k < t.len() && t[k] == y;
                if k < i {
                    assert(s[k] == y);
                } else if k > i {
                    assert(s[k - 1] == y);
                }
            }
            if s.contains(y) {
                let k = choose|k: int| 0 <= k < s.len() && s[k] == y;
                if k < i {
                    assert(t[k] == y);
                } else {
                    assert(t[k + 1] == y);
                }
            }
            if y == x@ {
                assert(t[i as int] == y);
            }
        }
    }
}

} // verus!
