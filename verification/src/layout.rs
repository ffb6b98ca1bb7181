//! The directory layout under the mitame root:
//! `baseline/<profile>/<id>.{png,json}`, `current/<profile>/...` and
//! `report/{result.json,diff/...}`. Paths are `/`-separated strings.
use vstd::prelude::*;

use crate::identity::{
    safe_component, has_png_suffix, id_of, parse_identity, slashes, strip_png, Identity, IdentityError,
    IdentityFault, IdentityView,
};
use crate::identity_laws::lemma_id_text_relative;
use crate::order::{ident_sorted, ident_views, insert_identity};
use crate::text::{chars_of, push_char, push_str};

verus! {

/// `part` appended to `base` the way `PathBuf::push` does on Unix: an
/// absolute `part` replaces `base`, an empty `base` gives `part`, and a `/`
/// goes between them unless `base` already ends with one.
pub open spec fn path_join(base: Seq<char>, part: Seq<char>) -> Seq<char> {
    if part.len() > 0 && part[0] == '/' {
        part
    } else if base.len() == 0 {
        part
    } else if base.last() == '/' {
        base + part
    } else {
        base + seq!['/'] + part
    }
}

/// Joins two paths.
pub fn join_path(base: &str, part: &str) -> (r: String)
    ensures
        r@ == path_join(base@, part@),
{
    let b = chars_of(base);
    let p = chars_of(part);
    let mut r = String::new();
    if p.len() > 0 && p[0] == '/' {
        push_str(&mut r, part);
    } else if b.len() == 0 {
        push_str(&mut r, part);
    } else {
        push_str(&mut r, base);
        if b[b.len() - 1] != '/' {
            push_char(&mut r, '/');
        }
        push_str(&mut r, part);
    }
    assert(r@ =~= path_join(base@, part@));
    r
}

/// `s` without its leading `/` characters.
pub open spec fn trim_slashes(s: Seq<char>) -> Seq<char>
    decreases s.len(),
{
    if s.len() > 0 && s[0] == '/' {
        trim_slashes(s.drop_first())
    } else {
        s
    }
}

/// `path` relative to `root`, taken component-wise: when `path` is `root`
/// or lies under it the rest after the separators, otherwise `path`
/// itself; `\` then becomes `/`.
pub open spec fn relative_to(path: Seq<char>, root: Seq<char>) -> Seq<char> {
    let under = root.len() == 0 || (path.len() >= root.len() && path.take(root.len() as int)
        == root && (path.len() == root.len() || root.last() == '/' || path[root.len() as int]
        == '/'));
    slashes(
        if root.len() == 0 {
            path
        } else if under {
            trim_slashes(path.skip(root.len() as int))
        } else {
            path
        },
    )
}

/// The characters after the last `/`: the file name of a path.
pub open spec fn file_name(p: Seq<char>) -> Seq<char>
    decreases p.len(),
{
    if p.len() == 0 {
        p
    } else if p.last() == '/' {
        Seq::empty()
    } else {
        file_name(p.drop_last()).push(p.last())
    }
}

/// A path whose extension is `png`: its file name is `<something>.png`.
pub open spec fn is_png_file(p: Seq<char>) -> bool {
    file_name(p).len() > 4 && has_png_suffix(file_name(p))
}

/// The identities of the PNG files among `files` (paths relative to one
/// profile directory), in order; the first file that is not an identity
/// stops the walk with its error.
pub open spec fn collected(files: Seq<Seq<char>>) -> Result<Seq<IdentityView>, IdentityFault>
    decreases files.len(),
{
    if files.len() == 0 {
        Ok(Seq::empty())
    } else {
        match collected(files.drop_last()) {
            Err(e) => Err(e),
            Ok(ids) => {
                let f = files.last();
                if !is_png_file(f) {
                    Ok(ids)
                } else {
                    match parse_identity(slashes(strip_png(slashes(f)))) {
                        Err(e) => Err(e),
                        Ok(x) => Ok(ids.push(x)),
                    }
                }
            },
        }
    }
}

/// The character views of a list of paths.
pub open spec fn path_views(v: Seq<String>) -> Seq<Seq<char>> {
    v.map_values(|s: String| s@)
}

/// `s` with every `\` replaced by `/`.
pub fn forward_slashes(s: &str) -> (r: String)
    ensures
        r@ == slashes(s@),
{
    let cs = chars_of(s);
    let mut r = String::new();
    let mut i: usize = 0;
    while i < cs.len()
        invariant
            0 <= i <= cs.len(),
            r@ == slashes(cs@.take(i as int)),
        decreases cs.len() - i,
    {
        let c = if cs[i] == '\\' {
            '/'
        } else {
            cs[i]
        };
        push_char(&mut r, c);
        i = i + 1;
        assert(slashes(cs@.take(i as int)) =~= slashes(cs@.take(i - 1)).push(c));
    }
    assert(cs@.take(cs.len() as int) =~= cs@);
    r
}

/// Whether `path` names a PNG file by its extension.
pub fn png_file(path: &str) -> (r: bool)
    ensures
        r == is_png_file(path@),
{
    let cs = chars_of(path);
    let n = cs.len();
    let mut start = n;
    assert(cs@.take(n as int) =~= cs@);
    assert(file_name(cs@) + cs@.skip(n as int) =~= file_name(cs@));
    while start > 0 && cs[start - 1] != '/'
        invariant
            0 <= start <= n == cs.len(),
            file_name(cs@) == file_name(cs@.take(start as int)) + cs@.skip(start as int),
        decreases start,
    {
        proof {
            let t = cs@.take(start as int);
            assert(t.drop_last() =~= cs@.take(start - 1));
            assert(t.last() == cs@[start - 1]);
            assert(cs@.skip(start - 1) =~= seq![cs@[start - 1]] + cs@.skip(start as int));
            assert(file_name(t) == file_name(cs@.take(start - 1)).push(cs@[start - 1]));
            assert(file_name(cs@.take(start - 1)).push(cs@[start - 1]) + cs@.skip(start as int)
                =~= file_name(cs@.take(start - 1)) + cs@.skip(start - 1));
        }
        start = start - 1;
    }
    proof {
        let t = cs@.take(start as int);
        if start > 0 {
            assert(t.last() == cs@[start - 1]);
            assert(file_name(t) =~= Seq::<char>::empty());
        } else {
            assert(t =~= Seq::<char>::empty());
        }
        assert(file_name(cs@) =~= cs@.skip(start as int));
        reveal_strlit(".png");
        assert(".png"@ =~= seq!['.', 'p', 'n', 'g']);
        let name = cs@.skip(start as int);
        if name.len() >= 4 {
            assert(name.skip(name.len() - 4) =~= seq![
                cs@[n - 4],
                cs@[n - 3],
                cs@[n - 2],
                cs@[n - 1],
            ]);
        }
    }
    n - start > 4 && cs[n - 4] == '.' && cs[n - 3] == 'p' && cs[n - 2] == 'n' && cs[n - 1] == 'g'
}

/// The identities of the PNG files among `files`, paths relative to one
/// profile directory as a directory walk yields them; the first path that
/// is not an identity is the error.
pub fn collect_identities(files: &Vec<String>) -> (r: Result<Vec<Identity>, IdentityError>)
    ensures
        match r {
            Ok(v) => collected(path_views(files@)) == Ok::<_, IdentityFault>(ident_views(v@)),
            Err(e) => collected(path_views(files@)) == Err::<Seq<IdentityView>, _>(e@),
        },
{
    let ghost fs = path_views(files@);
    let mut out: Vec<Identity> = Vec::new();
    let mut i: usize = 0;
    assert(fs.take(0) =~= Seq::<Seq<char>>::empty());
    assert(ident_views(out@) =~= Seq::<IdentityView>::empty());
    while i < files.len()
        invariant
            0 <= i <= files.len(),
            fs == path_views(files@),
            collected(fs.take(i as int)) == Ok::<_, IdentityFault>(ident_views(out@)),
        decreases files.len() - i,
    {
        let ghost t = fs.take(i + 1);
        assert(t.drop_last() =~= fs.take(i as int));
        assert(t.last() == files@[i as int]@);
        if png_file(files[i].as_str()) {
            let rel = forward_slashes(files[i].as_str());
            proof {
                assert(slashes(strip_png(slashes(files@[i as int]@))) == slashes(strip_png(rel@)));
            }
            match Identity::from_relative_png(rel.as_str()) {
                Err(e) => {
                    proof {
                        lemma_collected_err_prefix(fs, i + 1);
                    }
                    return Err(e);
                },
                Ok(x) => {
                    let ghost before = out@;
                    out.push(x);
                    assert(ident_views(out@) =~= ident_views(before).push(x@));
                },
            }
        }
        i = i + 1;
    }
    assert(fs.take(files.len() as int) =~= fs);
    Ok(out)
}

/// An error on a prefix of the walk is the error of the whole walk.
proof fn lemma_collected_err_prefix(fs: Seq<Seq<char>>, n: int)
    requires
        0 <= n <= fs.len(),
        collected(fs.take(n)) is Err,
    ensures
        collected(fs) == collected(fs.take(n)),
    decreases fs.len() - n,
{
    if n < fs.len() {
        assert(fs.take(n + 1).drop_last() =~= fs.take(n));
        lemma_collected_err_prefix(fs, n + 1);
    } else {
        assert(fs.take(n) =~= fs);
    }
}

/// Law: a relative path written with `/`, joined to the root and then
/// made relative to it again, comes back unchanged.
pub proof fn law_relative_undoes_join(root: Seq<char>, r: Seq<char>)
    requires
        r.len() > 0,
        r[0] != '/',
        forall|i: int| 0 <= i < r.len() ==> r[i] != '\\',
    ensures
        relative_to(path_join(root, r), root) == r,
{
    assert(slashes(r) =~= r);
    assert(trim_slashes(r) == r);
    let p = path_join(root, r);
    if root.len() == 0 {
    } else if root.last() == '/' {
        assert(p.take(root.len() as int) =~= root);
        assert(p.skip(root.len() as int) =~= r);
    } else {
        assert(p.take(root.len() as int) =~= root);
        assert(p[root.len() as int] == '/');
        let q = p.skip(root.len() as int);
        assert(q =~= seq!['/'] + r);
        assert(q.drop_first() =~= r);
        assert(trim_slashes(q) == trim_slashes(q.drop_first()));
    }
}

/// The part of a path under `root` that comes before a directory name:
/// `root`, then a `/` unless it is empty or already ends with one.
pub open spec fn root_prefix(root: Seq<char>) -> Seq<char> {
    if root.len() == 0 {
        root
    } else if root.last() == '/' {
        root
    } else {
        root.push('/')
    }
}

/// A path that does not start with `/`, so that joining keeps what it is
/// joined to.
pub open spec fn relative_path(p: Seq<char>) -> bool {
    p.len() == 0 || p[0] != '/'
}

/// What follows the directory name in `<root>/<dir>/<profile>/<file>`.
pub open spec fn profile_tail(profile: Seq<char>, file: Seq<char>) -> Seq<char> {
    if profile.len() == 0 || profile.last() == '/' {
        seq!['/'] + profile + file
    } else {
        seq!['/'] + profile + seq!['/'] + file
    }
}

/// `<root>/<dir>/<profile>/<file>` spelled out, for a directory name with
/// no `/` at either end and a relative profile and file.
pub proof fn lemma_profile_path(root: Seq<char>, dir: Seq<char>, profile: Seq<char>, file: Seq<char>)
    requires
        dir.len() > 0,
        dir[0] != '/',
        dir.last() != '/',
        relative_path(profile),
        file.len() > 0,
        file[0] != '/',
    ensures
        path_join(path_join(path_join(root, dir), profile), file) == root_prefix(root) + dir
            + profile_tail(profile, file),
{
    let a = path_join(root, dir);
    assert(a =~= root_prefix(root) + dir);
    assert(a.last() == dir.last());
    let b = path_join(a, profile);
    assert(b =~= a + seq!['/'] + profile);
    if profile.len() == 0 || profile.last() == '/' {
        assert(b.last() == '/');
        assert(path_join(b, file) =~= root_prefix(root) + dir + profile_tail(profile, file));
    } else {
        assert(b.last() == profile.last());
        assert(path_join(b, file) =~= root_prefix(root) + dir + profile_tail(profile, file));
    }
}

/// Two paths that differ right after a shared prefix are different.
pub proof fn lemma_fork_differs(p: Seq<char>, x: Seq<char>, y: Seq<char>)
    requires
        x.len() > 0,
        y.len() > 0,
        x[0] != y[0],
    ensures
        p + x != p + y,
{
    assert((p + x)[p.len() as int] == x[0]);
    assert((p + y)[p.len() as int] == y[0]);
}

/// `<root>/<side>/<profile>/<id>.png`: one side's screenshot of an identity.
pub open spec fn side_png(root: Seq<char>, side: Seq<char>, profile: Seq<char>, v: IdentityView) -> Seq<char> {
    path_join(path_join(path_join(root, side), profile), id_of(v) + ".png"@)
}

/// `<root>/<side>/<profile>/<id>.json`: one side's sidecar of an identity.
pub open spec fn side_sidecar(root: Seq<char>, side: Seq<char>, profile: Seq<char>, v: IdentityView) -> Seq<char> {
    path_join(path_join(path_join(root, side), profile), id_of(v) + ".json"@)
}

/// For an identity with a safe platform and a relative profile, the four
/// files of the identity (current and baseline, screenshot and sidecar) are
/// four different paths.
pub proof fn lemma_identity_files_distinct(root: Seq<char>, profile: Seq<char>, v: IdentityView)
    requires
        safe_component(v.platform),
        relative_path(profile),
    ensures
        side_png(root, "current"@, profile, v) != side_png(root, "baseline"@, profile, v),
        side_png(root, "current"@, profile, v) != side_sidecar(root, "current"@, profile, v),
        side_png(root, "current"@, profile, v) != side_sidecar(root, "baseline"@, profile, v),
        side_png(root, "baseline"@, profile, v) != side_sidecar(root, "current"@, profile, v),
        side_png(root, "baseline"@, profile, v) != side_sidecar(root, "baseline"@, profile, v),
        side_sidecar(root, "current"@, profile, v) != side_sidecar(root, "baseline"@, profile, v),
{
    reveal_strlit("current");
    reveal_strlit("baseline");
    reveal_strlit(".png");
    reveal_strlit(".json");
    lemma_id_text_relative(v);
    let png = id_of(v) + ".png"@;
    let json = id_of(v) + ".json"@;
    assert(png[0] == id_of(v)[0]);
    assert(json[0] == id_of(v)[0]);
    let cur = "current"@;
    let base = "baseline"@;
    lemma_profile_path(root, cur, profile, png);
    lemma_profile_path(root, cur, profile, json);
    lemma_profile_path(root, base, profile, png);
    lemma_profile_path(root, base, profile, json);
    let p = root_prefix(root);
    let tp = profile_tail(profile, png);
    let tj = profile_tail(profile, json);
    assert(p + cur + tp =~= p + (cur + tp));
    assert(p + cur + tj =~= p + (cur + tj));
    assert(p + base + tp =~= p + (base + tp));
    assert(p + base + tj =~= p + (base + tj));
    lemma_fork_differs(p, cur + tp, base + tp);
    lemma_fork_differs(p, cur + tp, base + tj);
    lemma_fork_differs(p, base + tp, cur + tj);
    lemma_fork_differs(p, cur + tj, base + tj);
    assert(tp.len() + 1 == tj.len());
}

/// Equal paths with an equal start are equal after it.
pub proof fn lemma_cancel_prefix(p: Seq<char>, a: Seq<char>, b: Seq<char>)
    requires
        p + a == p + b,
    ensures
        a == b,
{
    assert(a =~= (p + a).skip(p.len() as int));
    assert(b =~= (p + b).skip(p.len() as int));
}

/// A baseline file of one identity is neither current file of an
/// identity: the paths part right after the root.
proof fn lemma_baseline_is_not_current(
    root: Seq<char>,
    profile: Seq<char>,
    v: IdentityView,
    w: IdentityView,
)
    requires
        safe_component(v.platform),
        safe_component(w.platform),
        relative_path(profile),
    ensures
        side_png(root, "baseline"@, profile, w) != side_png(root, "current"@, profile, v),
        side_png(root, "baseline"@, profile, w) != side_sidecar(root, "current"@, profile, v),
        side_sidecar(root, "baseline"@, profile, w) != side_png(root, "current"@, profile, v),
        side_sidecar(root, "baseline"@, profile, w) != side_sidecar(root, "current"@, profile, v),
{
    reveal_strlit("current");
    reveal_strlit("baseline");
    reveal_strlit(".png");
    reveal_strlit(".json");
    lemma_id_text_relative(v);
    lemma_id_text_relative(w);
    let cur = "current"@;
    let base = "baseline"@;
    let pv = id_of(v) + ".png"@;
    let jv = id_of(v) + ".json"@;
    let pw = id_of(w) + ".png"@;
    let jw = id_of(w) + ".json"@;
    assert(pv[0] == id_of(v)[0] && jv[0] == id_of(v)[0]);
    assert(pw[0] == id_of(w)[0] && jw[0] == id_of(w)[0]);
    lemma_profile_path(root, cur, profile, pv);
    lemma_profile_path(root, cur, profile, jv);
    lemma_profile_path(root, base, profile, pw);
    lemma_profile_path(root, base, profile, jw);
    let p = root_prefix(root);
    assert(p + cur + profile_tail(profile, pv) =~= p + (cur + profile_tail(profile, pv)));
    assert(p + cur + profile_tail(profile, jv) =~= p + (cur + profile_tail(profile, jv)));
    assert(p + base + profile_tail(profile, pw) =~= p + (base + profile_tail(profile, pw)));
    assert(p + base + profile_tail(profile, jw) =~= p + (base + profile_tail(profile, jw)));
    lemma_fork_differs(p, base + profile_tail(profile, pw), cur + profile_tail(profile, pv));
    lemma_fork_differs(p, base + profile_tail(profile, pw), cur + profile_tail(profile, jv));
    lemma_fork_differs(p, base + profile_tail(profile, jw), cur + profile_tail(profile, pv));
    lemma_fork_differs(p, base + profile_tail(profile, jw), cur + profile_tail(profile, jv));
}

/// The baseline files of two identities with different texts are four
/// different paths.
proof fn lemma_baselines_differ(root: Seq<char>, profile: Seq<char>, v: IdentityView, w: IdentityView)
    requires
        safe_component(v.platform),
        safe_component(w.platform),
        relative_path(profile),
        id_of(v) != id_of(w),
    ensures
        side_png(root, "baseline"@, profile, w) != side_png(root, "baseline"@, profile, v),
        side_png(root, "baseline"@, profile, w) != side_sidecar(root, "baseline"@, profile, v),
        side_sidecar(root, "baseline"@, profile, w) != side_png(root, "baseline"@, profile, v),
        side_sidecar(root, "baseline"@, profile, w) != side_sidecar(root, "baseline"@, profile, v),
{
    reveal_strlit("baseline");
    reveal_strlit(".png");
    reveal_strlit(".json");
    lemma_id_text_relative(v);
    lemma_id_text_relative(w);
    let base = "baseline"@;
    let pv = id_of(v) + ".png"@;
    let jv = id_of(v) + ".json"@;
    let pw = id_of(w) + ".png"@;
    let jw = id_of(w) + ".json"@;
    assert(pv[0] == id_of(v)[0] && jv[0] == id_of(v)[0]);
    assert(pw[0] == id_of(w)[0] && jw[0] == id_of(w)[0]);
    lemma_profile_path(root, base, profile, pv);
    lemma_profile_path(root, base, profile, jv);
    lemma_profile_path(root, base, profile, pw);
    lemma_profile_path(root, base, profile, jw);
    let q = root_prefix(root) + base;
    let h = if profile.len() == 0 || profile.last() == '/' {
        seq!['/'] + profile
    } else {
        seq!['/'] + profile + seq!['/']
    };
    assert(q + profile_tail(profile, pw) =~= (q + h) + pw);
    assert(q + profile_tail(profile, jw) =~= (q + h) + jw);
    assert(q + profile_tail(profile, pv) =~= (q + h) + pv);
    assert(q + profile_tail(profile, jv) =~= (q + h) + jv);
    if (q + h) + pw == (q + h) + pv {
        lemma_cancel_prefix(q + h, pw, pv);
        assert(id_of(w) =~= pw.take(id_of(w).len() as int));
        assert(id_of(v) =~= pv.take(id_of(v).len() as int));
    }
    if (q + h) + jw == (q + h) + jv {
        lemma_cancel_prefix(q + h, jw, jv);
        assert(id_of(w) =~= jw.take(id_of(w).len() as int));
        assert(id_of(v) =~= jv.take(id_of(v).len() as int));
    }
    if (q + h) + pw == (q + h) + jv {
        lemma_cancel_prefix(q + h, pw, jv);
        assert(pw[pw.len() - 4] == '.');
        assert(jv[jv.len() - 4] == 'j');
    }
    if (q + h) + jw == (q + h) + pv {
        lemma_cancel_prefix(q + h, jw, pv);
        assert(jw[jw.len() - 4] == 'j');
        assert(pv[pv.len() - 4] == '.');
    }
}

/// A baseline file of identity `w` is none of the files of another
/// identity `v`, for safe platforms and a relative profile.
pub proof fn lemma_other_identity_files_distinct(
    root: Seq<char>,
    profile: Seq<char>,
    v: IdentityView,
    w: IdentityView,
)
    requires
        safe_component(v.platform),
        safe_component(w.platform),
        relative_path(profile),
        id_of(v) != id_of(w),
    ensures
        ({
            let bpw = side_png(root, "baseline"@, profile, w);
            let bsw = side_sidecar(root, "baseline"@, profile, w);
            &&& bpw != side_png(root, "current"@, profile, v)
            &&& bpw != side_sidecar(root, "current"@, profile, v)
            &&& bpw != side_png(root, "baseline"@, profile, v)
            &&& bpw != side_sidecar(root, "baseline"@, profile, v)
            &&& bsw != side_png(root, "current"@, profile, v)
            &&& bsw != side_sidecar(root, "current"@, profile, v)
            &&& bsw != side_png(root, "baseline"@, profile, v)
            &&& bsw != side_sidecar(root, "baseline"@, profile, v)
        }),
{
    lemma_baseline_is_not_current(root, profile, v, w);
    lemma_baselines_differ(root, profile, v, w);
}

/// `<dir>/<file>` for a directory that is not empty and a relative file.
proof fn lemma_join_relative(dir: Seq<char>, file: Seq<char>)
    requires
        dir.len() > 0,
        file.len() > 0,
        file[0] != '/',
    ensures
        path_join(dir, file) == (if dir.last() == '/' {
            dir
        } else {
            dir.push('/')
        }) + file,
{
    if dir.last() != '/' {
        assert(dir + seq!['/'] + file =~= dir.push('/') + file);
    }
}

/// With an absolute profile the baseline and current directories are the
/// profile itself: an identity's current and baseline screenshot are one
/// file, and so are its sidecars, while screenshot and sidecar differ.
pub proof fn lemma_absolute_profile_files(root: Seq<char>, profile: Seq<char>, v: IdentityView)
    requires
        !relative_path(profile),
        safe_component(v.platform),
    ensures
        side_png(root, "current"@, profile, v) == side_png(root, "baseline"@, profile, v),
        side_sidecar(root, "current"@, profile, v) == side_sidecar(root, "baseline"@, profile, v),
        side_png(root, "baseline"@, profile, v) != side_sidecar(root, "baseline"@, profile, v),
{
    reveal_strlit(".png");
    reveal_strlit(".json");
    lemma_id_text_relative(v);
    let pv = id_of(v) + ".png"@;
    let jv = id_of(v) + ".json"@;
    assert(pv[0] == id_of(v)[0] && jv[0] == id_of(v)[0]);
    lemma_join_relative(profile, pv);
    lemma_join_relative(profile, jv);
}

/// With an absolute profile, the baseline files of two identities with
/// different texts are four different paths.
pub proof fn lemma_absolute_profile_others(root: Seq<char>, profile: Seq<char>, v: IdentityView, w: IdentityView)
    requires
        !relative_path(profile),
        safe_component(v.platform),
        safe_component(w.platform),
        id_of(v) != id_of(w),
    ensures
        side_png(root, "baseline"@, profile, w) != side_png(root, "baseline"@, profile, v),
        side_png(root, "baseline"@, profile, w) != side_sidecar(root, "baseline"@, profile, v),
        side_sidecar(root, "baseline"@, profile, w) != side_png(root, "baseline"@, profile, v),
        side_sidecar(root, "baseline"@, profile, w) != side_sidecar(root, "baseline"@, profile, v),
{
    reveal_strlit(".png");
    reveal_strlit(".json");
    lemma_id_text_relative(v);
    lemma_id_text_relative(w);
    let pv = id_of(v) + ".png"@;
    let jv = id_of(v) + ".json"@;
    let pw = id_of(w) + ".png"@;
    let jw = id_of(w) + ".json"@;
    assert(pv[0] == id_of(v)[0] && jv[0] == id_of(v)[0]);
    assert(pw[0] == id_of(w)[0] && jw[0] == id_of(w)[0]);
    lemma_join_relative(profile, pv);
    lemma_join_relative(profile, jv);
    lemma_join_relative(profile, pw);
    lemma_join_relative(profile, jw);
    let q = if profile.last() == '/' {
        profile
    } else {
        profile.push('/')
    };
    if q + pw == q + pv {
        lemma_cancel_prefix(q, pw, pv);
        assert(id_of(w) =~= pw.take(id_of(w).len() as int));
        assert(id_of(v) =~= pv.take(id_of(v).len() as int));
    }
    if q + jw == q + jv {
        lemma_cancel_prefix(q, jw, jv);
        assert(id_of(w) =~= jw.take(id_of(w).len() as int));
        assert(id_of(v) =~= jv.take(id_of(v).len() as int));
    }
    if q + pw == q + jv {
        lemma_cancel_prefix(q, pw, jv);
        assert(pw[pw.len() - 4] == '.');
        assert(jv[jv.len() - 4] == 'j');
    }
    if q + jw == q + pv {
        lemma_cancel_prefix(q, jw, pv);
        assert(jw[jw.len() - 4] == 'j');
        assert(pv[pv.len() - 4] == '.');
    }
}

/// Where the screenshots of one profile live.
#[derive(Debug, Clone)]
pub struct Layout {
    pub root: String,
    pub profile: String,
}

impl Layout {
    /// A layout rooted at `root` for `profile`.
    pub fn new(root: String, profile: String) -> (r: Layout)
        ensures
            r.root@ == root@,
            r.profile@ == profile@,
    {
        Layout { root, profile }
    }

    /// `<root>/baseline/<profile>`.
    pub fn baseline_dir(&self) -> (r: String)
        ensures
            r@ == path_join(path_join(self.root@, "baseline"@), self.profile@),
    {
        let d = join_path(self.root.as_str(), "baseline");
        join_path(d.as_str(), self.profile.as_str())
    }

    /// `<root>/current/<profile>`.
    pub fn current_dir(&self) -> (r: String)
        ensures
            r@ == path_join(path_join(self.root@, "current"@), self.profile@),
    {
        let d = join_path(self.root.as_str(), "current");
        join_path(d.as_str(), self.profile.as_str())
    }

    /// `<root>/report`.
    pub fn report_dir(&self) -> (r: String)
        ensures
            r@ == path_join(self.root@, "report"@),
    {
        join_path(self.root.as_str(), "report")
    }

    /// `<root>/report/diff`.
    pub fn diff_dir(&self) -> (r: String)
        ensures
            r@ == path_join(path_join(self.root@, "report"@), "diff"@),
    {
        let d = self.report_dir();
        join_path(d.as_str(), "diff")
    }

    /// `<root>/report/result.json`.
    pub fn result_path(&self) -> (r: String)
        ensures
            r@ == path_join(path_join(self.root@, "report"@), "result.json"@),
    {
        let d = self.report_dir();
        join_path(d.as_str(), "result.json")
    }

    /// The baseline screenshot of `id`.
    pub fn baseline_png(&self, id: &Identity) -> (r: String)
        ensures
            r@ == path_join(
                path_join(path_join(self.root@, "baseline"@), self.profile@),
                id_of(id@) + ".png"@,
            ),
    {
        let d = self.baseline_dir();
        let p = id.png_path();
        join_path(d.as_str(), p.as_str())
    }

    /// The baseline sidecar of `id`.
    pub fn baseline_sidecar(&self, id: &Identity) -> (r: String)
        ensures
            r@ == path_join(
                path_join(path_join(self.root@, "baseline"@), self.profile@),
                id_of(id@) + ".json"@,
            ),
    {
        let d = self.baseline_dir();
        let p = id.sidecar_path();
        join_path(d.as_str(), p.as_str())
    }

    /// The current screenshot of `id`.
    pub fn current_png(&self, id: &Identity) -> (r: String)
        ensures
            r@ == path_join(
                path_join(path_join(self.root@, "current"@), self.profile@),
                id_of(id@) + ".png"@,
            ),
    {
        let d = self.current_dir();
        let p = id.png_path();
        join_path(d.as_str(), p.as_str())
    }

    /// The current sidecar of `id`.
    pub fn current_sidecar(&self, id: &Identity) -> (r: String)
        ensures
            r@ == path_join(
                path_join(path_join(self.root@, "current"@), self.profile@),
                id_of(id@) + ".json"@,
            ),
    {
        let d = self.current_dir();
        let p = id.sidecar_path();
        join_path(d.as_str(), p.as_str())
    }

    /// The diff image of `id`.
    pub fn diff_png(&self, id: &Identity) -> (r: String)
        ensures
            r@ == path_join(
                path_join(path_join(self.root@, "report"@), "diff"@),
                id_of(id@) + ".png"@,
            ),
    {
        let d = self.diff_dir();
        let p = id.png_path();
        join_path(d.as_str(), p.as_str())
    }

    /// `path` written relative to the root, with `/` separators.
    pub fn relative(&self, path: &str) -> (r: String)
        ensures
            r@ == relative_to(path@, self.root@),
    {
        let p = chars_of(path);
        let root = chars_of(self.root.as_str());
        let n = root.len();
        let mut under = n == 0;
        if n > 0 && p.len() >= n {
            let mut i: usize = 0;
            while i < n && p[i] == root[i]
                invariant
                    0 <= i <= n,
                    n <= p.len(),
                    n == root.len(),
                    p@.take(i as int) == root@.take(i as int),
                decreases n - i,
            {
                i = i + 1;
                assert(p@.take(i as int) =~= p@.take(i - 1).push(p@[i - 1]));
                assert(root@.take(i as int) =~= root@.take(i - 1).push(root@[i - 1]));
            }
            if i == n {
                assert(root@.take(n as int) =~= root@);
                under = p.len() == n || root[n - 1] == '/' || p[n] == '/';
            } else {
                assert(p@.take(n as int)[i as int] != root@[i as int]);
            }
        }
        let mut start: usize = 0;
        if n > 0 && under {
            start = n;
            while start < p.len() && p[start] == '/'
                invariant
                    n <= start <= p.len(),
                    trim_slashes(p@.skip(n as int)) == trim_slashes(p@.skip(start as int)),
                decreases p.len() - start,
            {
                assert(p@.skip(start as int).drop_first() =~= p@.skip(start + 1));
                start = start + 1;
            }
        }
        let mut r = String::new();
        let mut i: usize = start;
        while i < p.len()
            invariant
                start <= i <= p.len(),
                r@ == slashes(p@.subrange(start as int, i as int)),
            decreases p.len() - i,
        {
            let c = if p[i] == '\\' {
                '/'
            } else {
                p[i]
            };
            push_char(&mut r, c);
            i = i + 1;
            assert(slashes(p@.subrange(start as int, i as int)) =~= slashes(
                p@.subrange(start as int, i - 1),
            ).push(c));
        }
        proof {
            assert(p@.subrange(start as int, p.len() as int) =~= p@.skip(start as int));
            if n > 0 && under {
                assert(trim_slashes(p@.skip(start as int)) == p@.skip(start as int));
            }
            assert(p@.skip(0) =~= p@);
        }
        r
    }

    /// The identities found in the baseline and current directories of this
    /// layout, given the files a walk found in each (relative paths), as a
    /// sorted set; an unreadable file name in the baseline walk, then in the
    /// current walk, is the error.
    pub fn identities(&self, baseline_files: &Vec<String>, current_files: &Vec<String>) -> (r:
        Result<Vec<Identity>, IdentityError>)
        ensures
            match r {
                Ok(v) => {
                    &&& collected(path_views(baseline_files@)) matches Ok(b)
                    &&& collected(path_views(current_files@)) matches Ok(c)
                    &&& ident_sorted(ident_views(v@))
                    &&& forall|y: IdentityView|
                        ident_views(v@).contains(y) <==> b.contains(y) || c.contains(y)
                },
                Err(e) => collected(path_views(baseline_files@)) == Err::<Seq<IdentityView>, _>(
                    e@,
                ) || (collected(path_views(baseline_files@)) is Ok && collected(
                    path_views(current_files@),
                ) == Err::<Seq<IdentityView>, _>(e@)),
            },
    {
        let b = match collect_identities(baseline_files) {
            Ok(v) => v,
            Err(e) => {
                return Err(e);
            },
        };
        let c = match collect_identities(current_files) {
            Ok(v) => v,
            Err(e) => {
                return Err(e);
            },
        };
        let mut set: Vec<Identity> = Vec::new();
        let ghost bv = ident_views(b@);
        let ghost cv = ident_views(c@);
        let mut all: Vec<Identity> = b;
        let mut rest: Vec<Identity> = c;
        all.append(&mut rest);
        let ghost av = ident_views(all@);
        assert(av =~= bv + cv);
        let mut i: usize = 0;
        assert(ident_views(set@) =~= Seq::<IdentityView>::empty());
        while i < all.len()
            invariant
                0 <= i <= all.len(),
                av == ident_views(all@),
                ident_sorted(ident_views(set@)),
                forall|y: IdentityView|
                    ident_views(set@).contains(y) <==> av.take(i as int).contains(y),
            decreases all.len() - i,
        {
            let x = all[i].duplicate();
            let ghost old_set = ident_views(set@);
            assert(x@ == av[i as int]);
            insert_identity(&mut set, x);
            proof {
                assert(forall|y: IdentityView|
                    old_set.contains(y) <==> av.take(i as int).contains(y));
                assert(av.take(i + 1) =~= av.take(i as int).push(av[i as int]));
                assert forall|y: IdentityView|
                    ident_views(set@).contains(y) <==> av.take(i + 1).contains(y) by {
                    let t1 = av.take(i + 1);
                    if t1.contains(y) && !av.take(i as int).contains(y) {
                        let k = choose|k: int| 0 <= k < t1.len() && t1[k] == y;
                        if k < i {
                            assert(av.take(i as int)[k] == y);
                        }
                    }
                    if av.take(i as int).contains(y) {
                        let k = choose|k: int| 0 <= k < i && av.take(i as int)[k] == y;
                        assert(av.take(i + 1)[k] == y);
                    }
                    if y == av[i as int] {
                        assert(t1[i as int] == y);
                    }
                }
            }
            i = i + 1;
        }
        proof {
            assert(av.take(all.len() as int) =~= av);
            assert forall|y: IdentityView| av.contains(y) <==> bv.contains(y) || cv.contains(y) by {
                if av.contains(y) {
                    let k = choose|k: int| 0 <= k < av.len() && av[k] == y;
                    if k < bv.len() {
                        assert(bv[k] == y);
                    } else {
                        assert(cv[k - bv.len()] == y);
                    }
                }
                if bv.contains(y) {
                    let k = choose|k: int| 0 <= k < bv.len() && bv[k] == y;
                    assert(av[k] == y);
                }
                if cv.contains(y) {
                    let k = choose|k: int| 0 <= k < cv.len() && cv[k] == y;
                    assert(av[k + bv.len()] == y);
                }
            }
        }
        Ok(set)
    }
}

} // verus!
