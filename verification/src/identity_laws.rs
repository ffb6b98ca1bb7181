//! What holds of identities as a whole: the canonical text of an identity
//! reads back as the same identity, and every identity that parsing gives is
//! one whose text reads back.
use vstd::prelude::*;

use crate::identity::{
    char_from, dunder_at, dunder_from, encoded, first_unsafe, id_of, id_parts, is_safe_char,
    keys_sorted, lemma_char_first, lemma_dunder_first, lemma_dunder_from, lemma_vinsert_append,
    lemma_vinsert_sorted, nonempty, pair_text, pair_texts, parse_identity, parse_pairs,
    safe_component, segments, slashes, stem_name, stem_of, stem_variant, strip_png, vinsert,
    vlookup, well_formed,
    IdentityFault, IdentityView,
};
use crate::text::{join, lemma_split_join, split};

verus! {

/// A safe component holds neither `/`, `,` nor `=`.
proof fn lemma_safe_has_no(s: Seq<char>, c: char)
    requires
        safe_component(s),
        !is_safe_char(c),
    ensures
        !s.contains(c),
{
    if s.contains(c) {
        let k = choose|k: int| 0 <= k < s.len() && s[k] == c;
        assert(is_safe_char(s[k]));
    }
}

/// Every piece non-empty: `nonempty` keeps them all.
proof fn lemma_nonempty_all(ps: Seq<Seq<char>>)
    requires
        forall|i: int| 0 <= i < ps.len() ==> (#[trigger] ps[i]).len() > 0,
    ensures
        nonempty(ps) == ps,
    decreases ps.len(),
{
    if ps.len() > 0 {
        let init = ps.drop_last();
        assert forall|i: int| 0 <= i < init.len() implies (#[trigger] init[i]).len() > 0 by {
            assert(init[i] == ps[i]);
        }
        lemma_nonempty_all(init);
        assert(ps[ps.len() - 1].len() > 0);
        assert(init.push(ps.last()) =~= ps);
    }
}

/// All components safe: no first unsafe one.
proof fn lemma_first_unsafe_none(gs: Seq<Seq<char>>)
    requires
        forall|i: int| 0 <= i < gs.len() ==> safe_component(#[trigger] gs[i]),
    ensures
        first_unsafe(gs) is None,
    decreases gs.len(),
{
    if gs.len() > 0 {
        let t = gs.drop_first();
        assert forall|i: int| 0 <= i < t.len() implies safe_component(#[trigger] t[i]) by {
            assert(t[i] == gs[i + 1]);
        }
        assert(safe_component(gs[0]));
        lemma_first_unsafe_none(t);
    }
}

/// No first unsafe component: all are safe.
proof fn lemma_first_unsafe_all(gs: Seq<Seq<char>>)
    requires
        first_unsafe(gs) is None,
    ensures
        forall|i: int| 0 <= i < gs.len() ==> safe_component(#[trigger] gs[i]),
    decreases gs.len(),
{
    if gs.len() > 0 {
        let t = gs.drop_first();
        lemma_first_unsafe_all(t);
        assert forall|i: int| 0 <= i < gs.len() implies safe_component(#[trigger] gs[i]) by {
            if i > 0 {
                assert(gs[i] == t[i - 1]);
            }
        }
    }
}

/// The `k=v` texts of well-formed pairs read back as the same pairs.
proof fn lemma_parse_pair_texts(m: Seq<(Seq<char>, Seq<char>)>)
    requires
        keys_sorted(m),
        forall|i: int|
            0 <= i < m.len() ==> safe_component((#[trigger] m[i]).0) && safe_component(m[i].1),
    ensures
        parse_pairs(pair_texts(m)) == Ok::<_, IdentityFault>(m),
    decreases m.len(),
{
    if m.len() == 0 {
        assert(pair_texts(m) =~= Seq::<Seq<char>>::empty());
        assert(m =~= Seq::<(Seq<char>, Seq<char>)>::empty());
    } else {
        let init = m.drop_last();
        assert(keys_sorted(init)) by {
            assert forall|i: int, j: int| 0 <= i < j < init.len() implies crate::text::str_lt(
                #[trigger] init[i].0,
                #[trigger] init[j].0,
            ) by {
                assert(init[i] == m[i] && init[j] == m[j]);
            }
        }
        assert forall|i: int| 0 <= i < init.len() implies safe_component(
            (#[trigger] init[i]).0,
        ) && safe_component(init[i].1) by {
            assert(init[i] == m[i]);
        }
        lemma_parse_pair_texts(init);
        let ps = pair_texts(m);
        assert(ps.drop_last() =~= pair_texts(init));
        let last = m.last();
        assert(safe_component(m[m.len() - 1].0) && safe_component(m[m.len() - 1].1));
        let text = ps.last();
        assert(text == pair_text(last));
        assert(text =~= last.0 + seq!['='] + last.1);
        lemma_safe_has_no(last.0, '=');
        assert forall|j: int| 0 <= j < last.0.len() implies text[j] != '=' by {
            assert(text[j] == last.0[j]);
            assert(last.0.contains(last.0[j]));
        }
        assert(text[last.0.len() as int] == '=');
        lemma_char_first(text, '=', last.0.len() as int);
        assert(text.take(last.0.len() as int) =~= last.0);
        assert(text.skip(last.0.len() as int + 1) =~= last.1);
        assert forall|i: int| 0 <= i < init.len() implies crate::text::str_lt(
            #[trigger] init[i].0,
            last.0,
        ) by {
            assert(init[i] == m[i]);
            assert(last == m[m.len() - 1]);
        }
        lemma_vinsert_append(init, last.0, last.1);
        assert(init.push(last) =~= m);
    }
}

/// The stem of a well-formed identity reads back as its name and variant.
proof fn lemma_stem_reads_back(v: IdentityView)
    requires
        well_formed(v),
    ensures
        stem_name(stem_of(v)) == v.name,
        stem_variant(stem_of(v)) == Ok::<_, IdentityFault>(v.variant),
{
    let stem = stem_of(v);
    if v.variant.len() == 0 {
        assert(Seq::<(Seq<char>, Seq<char>)>::empty() =~= v.variant);
    } else {
        let n = v.name.len() as int;
        let enc = encoded(v.variant);
        assert(stem =~= v.name + seq!['_', '_'] + enc);
        lemma_dunder_from(v.name, 0);
        assert(dunder_at(stem, n));
        assert forall|j: int| 0 <= j < n implies !#[trigger] dunder_at(stem, j) by {
            if j + 1 < n {
                assert(stem[j] == v.name[j] && stem[j + 1] == v.name[j + 1]);
                assert(!dunder_at(v.name, j));
            } else {
                assert(stem[j] == v.name.last());
            }
        }
        lemma_dunder_first(stem, n);
        assert(stem.take(n) =~= v.name);
        assert(stem.skip(n + 2) =~= enc);
        let texts = pair_texts(v.variant);
        assert forall|i: int| 0 <= i < texts.len() implies !(#[trigger] texts[i]).contains(',') by {
            let p = v.variant[i];
            assert(texts[i] == pair_text(p));
            assert(safe_component(p.0) && safe_component(p.1));
            lemma_safe_has_no(p.0, ',');
            lemma_safe_has_no(p.1, ',');
            if texts[i].contains(',') {
                let k = choose|k: int| 0 <= k < texts[i].len() && texts[i][k] == ',';
                if k < p.0.len() {
                    assert(texts[i][k] == p.0[k]);
                    assert(p.0.contains(p.0[k]));
                } else if k > p.0.len() {
                    assert(texts[i][k] == p.1[k - p.0.len() - 1]);
                    assert(p.1.contains(p.1[k - p.0.len() - 1]));
                }
            }
        }
        lemma_split_join(texts, ',');
        lemma_parse_pair_texts(v.variant);
    }
}

/// The parts of a well-formed identity hold no character `c` that is
/// neither safe nor `,` nor `=` (such as `/` or `\\`), and are not empty.
proof fn lemma_parts_plain(v: IdentityView, c: char)
    requires
        well_formed(v),
        !is_safe_char(c),
        c != ',',
        c != '=',
    ensures
        forall|i: int| 0 <= i < id_parts(v).len() ==> !(#[trigger] id_parts(v)[i]).contains(c),
        forall|i: int| 0 <= i < id_parts(v).len() ==> (#[trigger] id_parts(v)[i]).len() > 0,
{
    let parts = id_parts(v);
    let stem = stem_of(v);
    assert(!stem.contains(c)) by {
        lemma_safe_has_no(v.name, c);
        if v.variant.len() > 0 && stem.contains(c) {
            let enc = encoded(v.variant);
            assert(stem =~= v.name + seq!['_', '_'] + enc);
            let k = choose|k: int| 0 <= k < stem.len() && stem[k] == c;
            if k < v.name.len() {
                assert(stem[k] == v.name[k]);
                assert(v.name.contains(v.name[k]));
            } else if k >= v.name.len() + 2 {
                lemma_encoded_plain(v.variant, c);
                assert(stem[k] == enc[k - v.name.len() - 2]);
                assert(enc.contains(enc[k - v.name.len() - 2]));
            }
        }
    }
    assert(stem.len() > 0);
    assert forall|i: int| 0 <= i < parts.len() implies !(#[trigger] parts[i]).contains(c) by {
        if i == 0 {
            lemma_safe_has_no(v.platform, c);
        } else if i < parts.len() - 1 {
            assert(parts[i] == v.group[i - 1]);
            lemma_safe_has_no(v.group[i - 1], c);
        }
    }
    assert forall|i: int| 0 <= i < parts.len() implies (#[trigger] parts[i]).len() > 0 by {
        if 0 < i < parts.len() - 1 {
            assert(parts[i] == v.group[i - 1]);
            assert(safe_component(v.group[i - 1]));
        }
    }
}

/// The encoded variant of safe pairs holds no character `c` that is
/// neither safe nor `,` nor `=`.
proof fn lemma_encoded_plain(m: Seq<(Seq<char>, Seq<char>)>, c: char)
    requires
        !is_safe_char(c),
        c != ',',
        c != '=',
        forall|i: int|
            0 <= i < m.len() ==> safe_component((#[trigger] m[i]).0) && safe_component(m[i].1),
    ensures
        !encoded(m).contains(c),
{
    lemma_join_plain(pair_texts(m), seq![','], c);
    assert forall|i: int| 0 <= i < pair_texts(m).len() implies !(
    #[trigger] pair_texts(m)[i]).contains(c) by {
        let p = m[i];
        assert(pair_texts(m)[i] == pair_text(p));
        assert(safe_component(p.0) && safe_component(p.1));
        lemma_safe_has_no(p.0, c);
        lemma_safe_has_no(p.1, c);
        let t = pair_text(p);
        if t.contains(c) {
            let k = choose|k: int| 0 <= k < t.len() && t[k] == c;
            if k < p.0.len() {
                assert(t[k] == p.0[k]);
                assert(p.0.contains(p.0[k]));
            } else if k > p.0.len() {
                assert(t[k] == p.1[k - p.0.len() - 1]);
                assert(p.1.contains(p.1[k - p.0.len() - 1]));
            }
        }
    }
}

/// A join of parts and separator free of `c` is free of `c`.
proof fn lemma_join_plain(parts: Seq<Seq<char>>, sep: Seq<char>, c: char)
    ensures
        (forall|i: int| 0 <= i < parts.len() ==> !(#[trigger] parts[i]).contains(c)) && !sep.contains(
            c,
        ) ==> !join(parts, sep).contains(c),
    decreases parts.len(),
{
    if parts.len() > 1 {
        let init = parts.drop_last();
        lemma_join_plain(init, sep, c);
        if (forall|i: int| 0 <= i < parts.len() ==> !(#[trigger] parts[i]).contains(c))
            && !sep.contains(c) {
            assert forall|i: int| 0 <= i < init.len() implies !(#[trigger] init[i]).contains(c) by {
                assert(init[i] == parts[i]);
            }
            let j = join(init, sep);
            let l = parts[parts.len() - 1];
            let all = j + sep + l;
            if all.contains(c) {
                let k = choose|k: int| 0 <= k < all.len() && all[k] == c;
                if k < j.len() {
                    assert(all[k] == j[k]);
                    assert(j.contains(j[k]));
                } else if k < j.len() + sep.len() {
                    assert(all[k] == sep[k - j.len()]);
                    assert(sep.contains(sep[k - j.len()]));
                } else {
                    assert(all[k] == l[k - j.len() - sep.len()]);
                    assert(l.contains(l[k - j.len() - sep.len()]));
                }
            }
        }
    } else if parts.len() == 1 {
        assert(parts[0] == parts[0]);
    }
}

/// Law: the canonical text of a well-formed identity reads back as that
/// identity.
pub proof fn law_identity_text_reads_back(v: IdentityView)
    requires
        well_formed(v),
    ensures
        parse_identity(id_of(v)) == Ok::<_, IdentityFault>(v),
{
    let parts = id_parts(v);
    lemma_parts_plain(v, '/');
    lemma_split_join(parts, '/');
    lemma_nonempty_all(parts);
    let segs = segments(id_of(v));
    assert(segs == parts);
    assert(segs.last() == stem_of(v));
    assert(segs[0] == v.platform);
    assert(segs.subrange(1, segs.len() - 1) =~= v.group);
    lemma_stem_reads_back(v);
    lemma_first_unsafe_none(v.group);
    let r = parse_identity(id_of(v));
    assert(r == Ok::<_, IdentityFault>(
        IdentityView {
            platform: v.platform,
            group: segs.subrange(1, segs.len() - 1),
            name: v.name,
            variant: v.variant,
        },
    ));
}

/// What `parse_pairs` gives is sorted and made of safe components.
proof fn lemma_parse_pairs_well_formed(ps: Seq<Seq<char>>)
    ensures
        parse_pairs(ps) matches Ok(m) ==> keys_sorted(m) && forall|i: int|
            0 <= i < m.len() ==> safe_component((#[trigger] m[i]).0) && safe_component(m[i].1),
    decreases ps.len(),
{
    if ps.len() > 0 {
        lemma_parse_pairs_well_formed(ps.drop_last());
        if let Ok(m) = parse_pairs(ps.drop_last()) {
            let pair = ps.last();
            if let Some(j) = char_from(pair, '=', 0) {
                let k = pair.take(j);
                let v = pair.skip(j + 1);
                if safe_component(k) && safe_component(v) {
                    lemma_vinsert_sorted(m, k, v);
                    lemma_vinsert_entries(m, k, v);
                    let r = vinsert(m, k, v);
                    assert forall|i: int| 0 <= i < r.len() implies safe_component(
                        (#[trigger] r[i]).0,
                    ) && safe_component(r[i].1) by {
                        if r[i] != (k, v) {
                            let y = choose|y: int| 0 <= y < m.len() && m[y] == r[i];
                            assert(safe_component(m[y].0));
                        }
                    }
                }
            }
        }
    }
}

/// Every pair of `vinsert(m, k, v)` is `(k, v)` or a pair of `m`.
proof fn lemma_vinsert_entries(m: Seq<(Seq<char>, Seq<char>)>, k: Seq<char>, v: Seq<char>)
    ensures
        forall|x: int|
            0 <= x < vinsert(m, k, v).len() ==> #[trigger] vinsert(m, k, v)[x] == (k, v) || exists|
                y: int,
            | 0 <= y < m.len() && m[y] == vinsert(m, k, v)[x],
    decreases m.len(),
{
    let r = vinsert(m, k, v);
    if m.len() == 0 {
    } else if m[0].0 == k {
        assert forall|x: int| 0 <= x < r.len() implies #[trigger] r[x] == (k, v) || exists|y: int|
            0 <= y < m.len() && m[y] == r[x] by {
            if x > 0 {
                assert(r[x] == m[x]);
            }
        }
    } else if crate::text::str_lt(k, m[0].0) {
        assert forall|x: int| 0 <= x < r.len() implies #[trigger] r[x] == (k, v) || exists|y: int|
            0 <= y < m.len() && m[y] == r[x] by {
            if x > 0 {
                assert(r[x] == m[x - 1]);
            }
        }
    } else {
        let t = m.drop_first();
        lemma_vinsert_entries(t, k, v);
        assert forall|x: int| 0 <= x < r.len() implies #[trigger] r[x] == (k, v) || exists|y: int|
            0 <= y < m.len() && m[y] == r[x] by {
            if x == 0 {
                assert(m[0] == r[0]);
            } else {
                assert(r[x] == vinsert(t, k, v)[x - 1]);
                if vinsert(t, k, v)[x - 1] != (k, v) {
                    let y = choose|y: int| 0 <= y < t.len() && t[y] == vinsert(t, k, v)[x - 1];
                    assert(m[y + 1] == t[y]);
                }
            }
        }
    }
}

/// Law: every identity that parsing gives is well formed, so its canonical
/// text reads back as the same identity: `parse(parse(s)?.id()) == parse(s)`.
pub proof fn law_parsed_identity_is_canonical(s: Seq<char>)
    ensures
        parse_identity(s) matches Ok(v) ==> well_formed(v) && parse_identity(id_of(v)) == Ok::<
            _,
            IdentityFault,
        >(v),
{
    if let Ok(v) = parse_identity(s) {
        let segs = segments(s);
        let stem = segs.last();
        lemma_first_unsafe_all(v.group);
        match dunder_from(stem, 0) {
            None => {},
            Some(i) => {
                lemma_dunder_from(stem, 0);
                lemma_parse_pairs_well_formed(crate::text::split(stem.skip(i + 2), ','));
                if v.variant.len() > 0 && v.name.last() == '_' {
                    assert(v.name == stem.take(i));
                    assert(stem[i - 1] == '_');
                    assert(dunder_at(stem, i - 1));
                }
            },
        }
        law_identity_text_reads_back(v);
    }
}


/// A join whose first part is not empty starts with that part's first
/// character.
proof fn lemma_join_first(parts: Seq<Seq<char>>, sep: Seq<char>)
    requires
        parts.len() >= 1,
        parts[0].len() > 0,
    ensures
        join(parts, sep).len() > 0,
        join(parts, sep)[0] == parts[0][0],
    decreases parts.len(),
{
    if parts.len() > 1 {
        let init = parts.drop_last();
        assert(init[0] == parts[0]);
        lemma_join_first(init, sep);
        assert((join(init, sep) + sep + parts.last())[0] == join(init, sep)[0]);
    }
}

/// The text of an identity with a safe platform is a relative path: it is
/// not empty and starts with the platform's first character, never `/`.
pub proof fn lemma_id_text_relative(v: IdentityView)
    requires
        safe_component(v.platform),
    ensures
        id_of(v).len() > 0,
        id_of(v)[0] == v.platform[0],
        id_of(v)[0] != '/',
{
    let parts = id_parts(v);
    assert(parts[0] == v.platform);
    lemma_join_first(parts, seq!['/']);
    assert(is_safe_char(v.platform[0]));
}

/// `s` with every `/` written as `\`.
pub open spec fn backslashed(s: Seq<char>) -> Seq<char> {
    s.map_values(
        |c: char|
            if c == '/' {
                '\\'
            } else {
                c
            },
    )
}

/// Law: the PNG path of a well-formed identity, `<id>.png`, reads back
/// through [`Identity::from_relative_png`]'s reading to that identity,
/// whether it is written with `/` or with `\` separators.
pub proof fn law_png_path_reads_back(v: IdentityView)
    requires
        well_formed(v),
    ensures
        parse_identity(slashes(strip_png(id_of(v) + ".png"@))) == Ok::<_, IdentityFault>(v),
        parse_identity(slashes(strip_png(backslashed(id_of(v) + ".png"@)))) == Ok::<
            _,
            IdentityFault,
        >(v),
{
    reveal_strlit(".png");
    let t = id_of(v);
    let p = t + ".png"@;
    assert(p.skip(p.len() - 4) =~= ".png"@);
    assert(p.take(p.len() - 4) =~= t);
    lemma_parts_plain(v, '\\');
    lemma_join_plain(id_parts(v), seq!['/'], '\\');
    assert(!seq!['/'].contains('\\')) by {
        if seq!['/'].contains('\\') {
            let k = choose|k: int| 0 <= k < 1 && seq!['/'][k] == '\\';
        }
    }
    assert(!t.contains('\\'));
    assert forall|i: int| 0 <= i < t.len() implies t[i] != '\\' by {
        if t[i] == '\\' {
            assert(t.contains(t[i]));
        }
    }
    assert(slashes(t) =~= t);
    law_identity_text_reads_back(v);
    let w = backslashed(p);
    assert(w.skip(w.len() - 4) =~= ".png"@);
    assert(slashes(w.take(w.len() - 4)) =~= t);
}

/// Law: what parsing an identity reads from its text. It succeeds exactly
/// when there are at least two non-empty `/`-separated segments, the
/// variant after the first `__` of the last one reads, and the first
/// segment, the name before that `__` and every segment in between are safe
/// components; the identity is then the first segment as platform, the
/// segments in between as group, that name and that variant.
pub proof fn law_parse_reads_segments(s: Seq<char>)
    ensures
        ({
            let segs = segments(s);
            parse_identity(s) is Ok <==> segs.len() >= 2 && stem_variant(segs.last()) is Ok
                && safe_component(segs[0]) && safe_component(stem_name(segs.last())) && forall|
                i: int,
            | 1 <= i < segs.len() - 1 ==> safe_component(#[trigger] segs[i])
        }),
        parse_identity(s) matches Ok(v) ==> ({
            let segs = segments(s);
            &&& v.platform == segs[0]
            &&& v.group == segs.subrange(1, segs.len() - 1)
            &&& v.name == stem_name(segs.last())
            &&& stem_variant(segs.last()) == Ok::<_, IdentityFault>(v.variant)
        }),
{
    let segs = segments(s);
    if segs.len() >= 2 {
        let group = segs.subrange(1, segs.len() - 1);
        if first_unsafe(group) is None {
            lemma_first_unsafe_all(group);
            assert forall|i: int| 1 <= i < segs.len() - 1 implies safe_component(
                #[trigger] segs[i],
            ) by {
                assert(segs[i] == group[i - 1]);
            }
        }
        if forall|i: int| 1 <= i < segs.len() - 1 ==> safe_component(#[trigger] segs[i]) {
            assert forall|i: int| 0 <= i < group.len() implies safe_component(
                #[trigger] group[i],
            ) by {
                assert(group[i] == segs[i + 1]);
            }
            lemma_first_unsafe_none(group);
        }
    }
}

/// The value of the last pair in `ps` (written `key=value`, split at its
/// first `=`) whose key is `k`.
pub open spec fn last_value(ps: Seq<Seq<char>>, k: Seq<char>) -> Option<Seq<char>>
    decreases ps.len(),
{
    if ps.len() == 0 {
        None
    } else {
        let pair = ps.last();
        match char_from(pair, '=', 0) {
            Some(j) => if pair.take(j) == k {
                Some(pair.skip(j + 1))
            } else {
                last_value(ps.drop_last(), k)
            },
            None => last_value(ps.drop_last(), k),
        }
    }
}

proof fn lemma_vlookup_vinsert(m: Seq<(Seq<char>, Seq<char>)>, k: Seq<char>, v: Seq<char>, q: Seq<char>)
    ensures
        vlookup(vinsert(m, k, v), q) == if q == k {
            Some(v)
        } else {
            vlookup(m, q)
        },
    decreases m.len(),
{
    if m.len() == 0 {
        assert(vinsert(m, k, v) == seq![(k, v)]);
        assert(seq![(k, v)].drop_first() =~= Seq::<(Seq<char>, Seq<char>)>::empty());
    } else {
        if m[0].0 == k {
            let t = seq![(k, v)] + m.drop_first();
            assert(vinsert(m, k, v) == t);
            assert(t[0] == (k, v));
            assert(t.drop_first() =~= m.drop_first());
        } else if crate::text::str_lt(k, m[0].0) {
            let t = seq![(k, v)] + m;
            assert(vinsert(m, k, v) == t);
            assert(t[0] == (k, v));
            assert(t.drop_first() =~= m);
        } else {
            let t = seq![m[0]] + vinsert(m.drop_first(), k, v);
            assert(vinsert(m, k, v) == t);
            assert(t[0] == m[0]);
            assert(t.drop_first() =~= vinsert(m.drop_first(), k, v));
            lemma_vlookup_vinsert(m.drop_first(), k, v, q);
        }
    }
}

/// Law: the variant read from `key=value` pairs holds, for each key, the
/// value of the last pair with that key: a later pair overrides an earlier
/// one with the same key.
pub proof fn law_later_pair_wins(ps: Seq<Seq<char>>, k: Seq<char>)
    ensures
        parse_pairs(ps) matches Ok(m) ==> vlookup(m, k) == last_value(ps, k),
    decreases ps.len(),
{
    if ps.len() > 0 {
        law_later_pair_wins(ps.drop_last(), k);
        if let Ok(m0) = parse_pairs(ps.drop_last()) {
            let pair = ps.last();
            if let Some(j) = char_from(pair, '=', 0) {
                lemma_vlookup_vinsert(m0, pair.take(j), pair.skip(j + 1), k);
            }
        }
    }
}

/// A `key=value` pair that reads: it holds a `=`, and the parts before and
/// after its first `=` are safe components.
pub open spec fn pair_reads(p: Seq<char>) -> bool {
    match char_from(p, '=', 0) {
        Some(j) => safe_component(p.take(j)) && safe_component(p.skip(j + 1)),
        None => false,
    }
}

/// Law: a list of pairs reads as a variant exactly when every pair reads.
pub proof fn law_pairs_read_when_each_reads(ps: Seq<Seq<char>>)
    ensures
        parse_pairs(ps) is Ok <==> forall|i: int| 0 <= i < ps.len() ==> pair_reads(#[trigger] ps[i]),
    decreases ps.len(),
{
    if ps.len() > 0 {
        let init = ps.drop_last();
        law_pairs_read_when_each_reads(init);
        if forall|i: int| 0 <= i < ps.len() ==> pair_reads(#[trigger] ps[i]) {
            assert forall|i: int| 0 <= i < init.len() implies pair_reads(#[trigger] init[i]) by {
                assert(init[i] == ps[i]);
            }
            assert(pair_reads(ps[ps.len() - 1]));
        }
        if parse_pairs(ps) is Ok {
            assert forall|i: int| 0 <= i < ps.len() implies pair_reads(#[trigger] ps[i]) by {
                if i < init.len() {
                    assert(init[i] == ps[i]);
                }
            }
        }
    }
}

} // verus!
