//! Approving screenshots: the current screenshot of each selected identity
//! becomes its baseline. The caller looks at the files of one identity,
//! asks [`approve`] what to do, performs the operations and records
//! the result.
use vstd::prelude::*;

use crate::files::{apply_ops, op_views, remove_if_exists, removal, FileOp, Files, OpView};
use crate::identity::{id_of, well_formed, Identity, IdentityError, IdentityFault, IdentityView, parse_identity};
use crate::layout::{
    collected, lemma_identity_files_distinct, path_views, relative_path, side_png, side_sidecar,
    Layout,
};
use crate::identity_laws::law_identity_text_reads_back;
use crate::layout::{lemma_absolute_profile_files, lemma_other_identity_files_distinct};
use crate::order::{ident_lt, ident_sorted, ident_views, lemma_ident_lt_irreflexive};
use crate::text::appended;

verus! {

/// What is on disk for one identity: which of its files exist, and whether
/// the current and baseline screenshots hold the same bytes.
#[derive(Debug, Clone, Copy)]
pub struct ApproveFacts {
    pub current_png: bool,
    pub baseline_png: bool,
    pub same_png: bool,
    pub current_sidecar: bool,
    pub baseline_sidecar: bool,
}

/// What approving one identity did.
#[derive(Debug, Clone, Copy, PartialEq, Eq, Structural)]
pub enum Approval {
    /// The current screenshot was copied into the baseline.
    Copied,
    /// There is no current screenshot; the baseline one was deleted.
    Deleted,
    /// The baseline already holds the current screenshot.
    Unchanged,
    /// Neither screenshot exists.
    Skipped,
}

/// The operations for one identity and what they amount to.
pub struct ApproveStep {
    pub ops: Vec<FileOp>,
    pub approval: Approval,
}

/// The facts as they are in `fs` for the four files.
pub open spec fn approve_facts_of(fs: Files, cp: Seq<char>, bp: Seq<char>, cs: Seq<char>, bs: Seq<char>) -> ApproveFacts {
    ApproveFacts {
        current_png: fs.dom().contains(cp),
        baseline_png: fs.dom().contains(bp),
        same_png: fs.dom().contains(cp) && fs.dom().contains(bp) && fs[cp] == fs[bp],
        current_sidecar: fs.dom().contains(cs),
        baseline_sidecar: fs.dom().contains(bs),
    }
}

/// Approving one identity whose current and baseline screenshots and
/// sidecars are `cp`, `bp`, `cs` and `bs`. Without a current screenshot the
/// baseline screenshot and sidecar are deleted (those that exist). With an
/// identical baseline nothing is done. Otherwise the screenshot is copied,
/// and the sidecar with it, or the stale baseline sidecar is deleted.
pub open spec fn approve_plan(cp: Seq<char>, bp: Seq<char>, cs: Seq<char>, bs: Seq<char>, f: ApproveFacts) -> (Seq<OpView>, Approval) {
    if !f.current_png {
        if f.baseline_png {
            (seq![OpView::Remove(bp)] + removal(bs, f.baseline_sidecar), Approval::Deleted)
        } else {
            (Seq::empty(), Approval::Skipped)
        }
    } else if f.baseline_png && f.same_png {
        (Seq::empty(), Approval::Unchanged)
    } else {
        (
            seq![OpView::Copy(cp, bp)] + if f.current_sidecar {
                seq![OpView::Copy(cs, bs)]
            } else {
                removal(bs, f.baseline_sidecar)
            },
            Approval::Copied,
        )
    }
}

/// The plan for `id` under `l`.
pub open spec fn approve_plan_for(l: Layout, v: IdentityView, f: ApproveFacts) -> (Seq<OpView>, Approval) {
    approve_plan(
        side_png(l.root@, "current"@, l.profile@, v),
        side_png(l.root@, "baseline"@, l.profile@, v),
        side_sidecar(l.root@, "current"@, l.profile@, v),
        side_sidecar(l.root@, "baseline"@, l.profile@, v),
        f,
    )
}

/// What to do to approve `id`, given the facts about its files.
pub fn approve(layout: &Layout, id: &Identity, facts: &ApproveFacts) -> (r: ApproveStep)
    ensures
        op_views(r.ops@) == approve_plan_for(*layout, id@, *facts).0,
        r.approval == approve_plan_for(*layout, id@, *facts).1,
{
    let cp = layout.current_png(id);
    let bp = layout.baseline_png(id);
    let mut ops: Vec<FileOp> = Vec::new();
    let approval;
    if !facts.current_png {
        if facts.baseline_png {
            ops.push(FileOp::Remove(bp));
            let mut rest = remove_if_exists(layout.baseline_sidecar(id), facts.baseline_sidecar);
            ops.append(&mut rest);
            approval = Approval::Deleted;
        } else {
            approval = Approval::Skipped;
        }
    } else if facts.baseline_png && facts.same_png {
        approval = Approval::Unchanged;
    } else {
        ops.push(FileOp::Copy(cp, bp));
        if facts.current_sidecar {
            ops.push(FileOp::Copy(layout.current_sidecar(id), layout.baseline_sidecar(id)));
        } else {
            let mut rest = remove_if_exists(layout.baseline_sidecar(id), facts.baseline_sidecar);
            ops.append(&mut rest);
        }
        approval = Approval::Copied;
    }
    assert(op_views(ops@) =~= approve_plan_for(*layout, id@, *facts).0);
    ApproveStep { ops, approval }
}

/// Law: approving an identity makes the baseline hold what current holds.
/// Run on files `fs` with the facts read from them, the operations succeed;
/// afterwards the baseline screenshot exists exactly when the current one
/// does, with its bytes; when something was copied the baseline sidecar
/// mirrors the current one, and when the screenshot was deleted so is the
/// sidecar; an identity already approved, or with neither screenshot, is
/// left as it is; no other file changes. (With an absolute profile the
/// baseline and current directories are one, and nothing changes.)
pub proof fn law_approve_promotes_current(
    fs: Files,
    layout: Layout,
    v: IdentityView,
    rewrite: spec_fn(Seq<u8>) -> Seq<u8>,
)
    requires
        well_formed(v),
    ensures
        ({
            let cp = side_png(layout.root@, "current"@, layout.profile@, v);
            let bp = side_png(layout.root@, "baseline"@, layout.profile@, v);
            let cs = side_sidecar(layout.root@, "current"@, layout.profile@, v);
            let bs = side_sidecar(layout.root@, "baseline"@, layout.profile@, v);
            let plan = approve_plan(cp, bp, cs, bs, approve_facts_of(fs, cp, bp, cs, bs));
            &&& apply_ops(fs, plan.0, rewrite) is Some
            &&& {
                let g = apply_ops(fs, plan.0, rewrite)->0;
                &&& g.dom().contains(bp) == fs.dom().contains(cp)
                &&& fs.dom().contains(cp) ==> g[bp] == fs[cp]
                &&& plan.1 == Approval::Copied ==> (g.dom().contains(bs) == fs.dom().contains(cs)
                    && (fs.dom().contains(cs) ==> g[bs] == fs[cs]))
                &&& plan.1 == Approval::Deleted ==> !g.dom().contains(bs)
                &&& plan.1 == Approval::Unchanged || plan.1 == Approval::Skipped ==> g == fs
                &&& forall|p: Seq<char>|
                    p != bp && p != bs ==> (#[trigger] g.dom().contains(p) == fs.dom().contains(p)
                        && (fs.dom().contains(p) ==> g[p] == fs[p]))
            }
        }),
{
    let cp = side_png(layout.root@, "current"@, layout.profile@, v);
    let bp = side_png(layout.root@, "baseline"@, layout.profile@, v);
    let cs = side_sidecar(layout.root@, "current"@, layout.profile@, v);
    let bs = side_sidecar(layout.root@, "baseline"@, layout.profile@, v);
    if relative_path(layout.profile@) {
        lemma_identity_files_distinct(layout.root@, layout.profile@, v);
    } else {
        lemma_absolute_profile_files(layout.root@, layout.profile@, v);
    }
    let f = approve_facts_of(fs, cp, bp, cs, bs);
    let plan = approve_plan(cp, bp, cs, bs, f);
    let ops = plan.0;
    reveal_with_fuel(apply_ops, 3);
    if ops.len() == 2 {
        assert(ops.drop_last().drop_last() =~= Seq::<OpView>::empty());
        assert(ops.drop_last() =~= seq![ops[0]]);
        let g1 = apply_ops(fs, ops.drop_last(), rewrite);
        assert(g1 == crate::files::apply_op(fs, ops[0], rewrite));
    } else if ops.len() == 1 {
        assert(ops.drop_last() =~= Seq::<OpView>::empty());
    }
    let g = apply_ops(fs, ops, rewrite)->0;
    assert forall|p: Seq<char>| p != bp && p != bs implies (#[trigger] g.dom().contains(p)
        == fs.dom().contains(p) && (fs.dom().contains(p) ==> g[p] == fs[p])) by {}
}

/// Approving `vs` one after another on files `fs`: each identity's facts
/// are read from the files as the earlier approvals left them; `None` once
/// an operation fails.
pub open spec fn approve_run(
    fs: Files,
    l: Layout,
    vs: Seq<IdentityView>,
    rewrite: spec_fn(Seq<u8>) -> Seq<u8>,
) -> Option<Files>
    decreases vs.len(),
{
    if vs.len() == 0 {
        Some(fs)
    } else {
        match approve_run(fs, l, vs.drop_last(), rewrite) {
            None => None,
            Some(g) => {
                let v = vs.last();
                let cp = side_png(l.root@, "current"@, l.profile@, v);
                let bp = side_png(l.root@, "baseline"@, l.profile@, v);
                let cs = side_sidecar(l.root@, "current"@, l.profile@, v);
                let bs = side_sidecar(l.root@, "baseline"@, l.profile@, v);
                apply_ops(g, approve_plan(cp, bp, cs, bs, approve_facts_of(g, cp, bp, cs, bs)).0, rewrite)
            },
        }
    }
}

/// A path is none of the baseline files of `vs`.
pub open spec fn outside_baselines(l: Layout, vs: Seq<IdentityView>, p: Seq<char>) -> bool {
    forall|i: int|
        0 <= i < vs.len() ==> p != side_png(l.root@, "baseline"@, l.profile@, #[trigger] vs[i])
            && p != side_sidecar(l.root@, "baseline"@, l.profile@, vs[i])
}

/// With an absolute profile every identity's current and baseline files
/// are the same paths, so approving any identities changes nothing.
proof fn lemma_approve_run_absolute(
    fs: Files,
    l: Layout,
    vs: Seq<IdentityView>,
    rewrite: spec_fn(Seq<u8>) -> Seq<u8>,
)
    requires
        !relative_path(l.profile@),
        forall|i: int| 0 <= i < vs.len() ==> well_formed(#[trigger] vs[i]),
    ensures
        approve_run(fs, l, vs, rewrite) == Some(fs),
    decreases vs.len(),
{
    if vs.len() > 0 {
        let init = vs.drop_last();
        assert forall|i: int| 0 <= i < init.len() implies well_formed(#[trigger] init[i]) by {
            assert(init[i] == vs[i]);
        }
        lemma_approve_run_absolute(fs, l, init, rewrite);
        assert(well_formed(vs[vs.len() - 1]));
        lemma_absolute_profile_files(l.root@, l.profile@, vs.last());
    }
}

/// Law: approving well-formed identities one after another succeeds, and
/// afterwards every one of them has a baseline screenshot exactly when it
/// had a current one, holding its bytes, and every file that is not a
/// baseline file of these identities is as it was. An identity named twice
/// is approved twice; the second time its baseline already holds the
/// current screenshot.
pub proof fn law_approve_run_promotes_each(
    fs: Files,
    l: Layout,
    vs: Seq<IdentityView>,
    rewrite: spec_fn(Seq<u8>) -> Seq<u8>,
)
    requires
        forall|i: int| 0 <= i < vs.len() ==> well_formed(#[trigger] vs[i]),
    ensures
        approve_run(fs, l, vs, rewrite) is Some,
        forall|i: int|
            0 <= i < vs.len() ==> {
                let g = approve_run(fs, l, vs, rewrite)->0;
                let cp = side_png(l.root@, "current"@, l.profile@, #[trigger] vs[i]);
                let bp = side_png(l.root@, "baseline"@, l.profile@, vs[i]);
                &&& g.dom().contains(bp) == fs.dom().contains(cp)
                &&& fs.dom().contains(cp) ==> g[bp] == fs[cp]
            },
        forall|p: Seq<char>|
            #[trigger] outside_baselines(l, vs, p) ==> {
                let g = approve_run(fs, l, vs, rewrite)->0;
                &&& g.dom().contains(p) == fs.dom().contains(p)
                &&& fs.dom().contains(p) ==> g[p] == fs[p]
            },
    decreases vs.len(),
{
    if !relative_path(l.profile@) {
        lemma_approve_run_absolute(fs, l, vs, rewrite);
        assert forall|i: int| 0 <= i < vs.len() implies side_png(
            l.root@,
            "current"@,
            l.profile@,
            #[trigger] vs[i],
        ) == side_png(l.root@, "baseline"@, l.profile@, vs[i]) by {
            lemma_absolute_profile_files(l.root@, l.profile@, vs[i]);
        }
    } else if vs.len() > 0 {
        let init = vs.drop_last();
        assert forall|i: int| 0 <= i < init.len() implies well_formed(#[trigger] init[i]) by {
            assert(init[i] == vs[i]);
        }
        law_approve_run_promotes_each(fs, l, init, rewrite);
        let g0 = approve_run(fs, l, init, rewrite)->0;
        let v = vs.last();
        assert(well_formed(vs[vs.len() - 1]));
        law_approve_promotes_current(g0, l, v, rewrite);
        lemma_identity_files_distinct(l.root@, l.profile@, v);
        let cp = side_png(l.root@, "current"@, l.profile@, v);
        let bp = side_png(l.root@, "baseline"@, l.profile@, v);
        let bs = side_sidecar(l.root@, "baseline"@, l.profile@, v);
        let g = approve_run(fs, l, vs, rewrite)->0;
        assert forall|i: int| 0 <= i < init.len() implies {
            &&& cp != side_png(l.root@, "baseline"@, l.profile@, #[trigger] init[i])
            &&& cp != side_sidecar(l.root@, "baseline"@, l.profile@, init[i])
            &&& init[i] != v ==> {
                &&& bp != side_png(l.root@, "baseline"@, l.profile@, init[i])
                &&& bp != side_sidecar(l.root@, "baseline"@, l.profile@, init[i])
                &&& bs != side_png(l.root@, "baseline"@, l.profile@, init[i])
                &&& bs != side_sidecar(l.root@, "baseline"@, l.profile@, init[i])
            }
        } by {
            let w = init[i];
            assert(w == vs[i]);
            if w != v {
                law_identity_text_reads_back(v);
                law_identity_text_reads_back(w);
                lemma_other_identity_files_distinct(l.root@, l.profile@, v, w);
                lemma_other_identity_files_distinct(l.root@, l.profile@, w, v);
            }
        }
        assert(outside_baselines(l, init, cp));
        assert forall|i: int| 0 <= i < vs.len() implies {
            let cpi = side_png(l.root@, "current"@, l.profile@, #[trigger] vs[i]);
            let bpi = side_png(l.root@, "baseline"@, l.profile@, vs[i]);
            &&& g.dom().contains(bpi) == fs.dom().contains(cpi)
            &&& fs.dom().contains(cpi) ==> g[bpi] == fs[cpi]
        } by {
            if i < init.len() {
                assert(init[i] == vs[i]);
            }
        }
        assert forall|p: Seq<char>| #[trigger] outside_baselines(l, vs, p) implies {
            &&& g.dom().contains(p) == fs.dom().contains(p)
            &&& fs.dom().contains(p) ==> g[p] == fs[p]
        } by {
            assert forall|i: int| 0 <= i < init.len() implies p != side_png(
                l.root@,
                "baseline"@,
                l.profile@,
                #[trigger] init[i],
            ) && p != side_sidecar(l.root@, "baseline"@, l.profile@, init[i]) by {
                assert(init[i] == vs[i]);
            }
            assert(outside_baselines(l, init, p));
            assert(p != bp && p != bs) by {
                assert(vs[vs.len() - 1] == v);
            }
            assert(g0.dom().contains(p) == fs.dom().contains(p));
            assert(g.dom().contains(p) == g0.dom().contains(p));
            if fs.dom().contains(p) {
                assert(g0[p] == fs[p]);
                assert(g[p] == g0[p]);
            }
        }
    }
}

/// The identities that `ids` name, in order; the first that does not parse
/// is the error.
pub open spec fn parsed_all(ids: Seq<Seq<char>>) -> Result<Seq<IdentityView>, IdentityFault>
    decreases ids.len(),
{
    if ids.len() == 0 {
        Ok(Seq::empty())
    } else {
        match parsed_all(ids.drop_last()) {
            Err(e) => Err(e),
            Ok(vs) => match parse_identity(ids.last()) {
                Err(e) => Err(e),
                Ok(v) => Ok(vs.push(v)),
            },
        }
    }
}

proof fn lemma_parsed_all_err_prefix(ids: Seq<Seq<char>>, n: int)
    requires
        0 <= n <= ids.len(),
        parsed_all(ids.take(n)) is Err,
    ensures
        parsed_all(ids) == parsed_all(ids.take(n)),
    decreases ids.len() - n,
{
    if n < ids.len() {
        assert(ids.take(n + 1).drop_last() =~= ids.take(n));
        lemma_parsed_all_err_prefix(ids, n + 1);
    } else {
        assert(ids.take(n) =~= ids);
    }
}

proof fn lemma_parsed_all_ok_prefix(ids: Seq<Seq<char>>, n: int)
    requires
        0 <= n <= ids.len(),
        forall|j: int| 0 <= j < n ==> (#[trigger] parse_identity(ids[j])) is Ok,
    ensures
        parsed_all(ids.take(n)) is Ok,
    decreases n,
{
    if n > 0 {
        assert(ids.take(n).drop_last() =~= ids.take(n - 1));
        lemma_parsed_all_ok_prefix(ids, n - 1);
        assert(ids.take(n).last() == ids[n - 1]);
        assert(parse_identity(ids[n - 1]) is Ok);
    }
}

/// Law: when some named identity does not parse, the selection fails with
/// the fault of the first such name, before anything is approved.
pub proof fn law_first_bad_name_is_the_error(ids: Seq<Seq<char>>, k: int)
    requires
        0 <= k < ids.len(),
        parse_identity(ids[k]) is Err,
        forall|j: int| 0 <= j < k ==> (#[trigger] parse_identity(ids[j])) is Ok,
    ensures
        parsed_all(ids) == Err::<Seq<IdentityView>, IdentityFault>(parse_identity(ids[k])->Err_0),
{
    lemma_parsed_all_ok_prefix(ids, k);
    assert(ids.take(k + 1).drop_last() =~= ids.take(k));
    assert(ids.take(k + 1).last() == ids[k]);
    lemma_parsed_all_err_prefix(ids, k + 1);
}

/// The identities to approve: those named by `ids`, or, when none is
/// named, every identity found in the baseline and current walks of the
/// layout (see [`Layout::identities`]).
pub fn select_for_approval(
    layout: &Layout,
    ids: &Vec<String>,
    baseline_files: &Vec<String>,
    current_files: &Vec<String>,
) -> (r: Result<Vec<Identity>, IdentityError>)
    ensures
        ids.len() > 0 ==> match r {
            Ok(v) => parsed_all(path_views(ids@)) == Ok::<_, IdentityFault>(ident_views(v@)),
            Err(e) => parsed_all(path_views(ids@)) == Err::<Seq<IdentityView>, _>(e@),
        },
        ids.len() == 0 ==> match r {
            Ok(v) => {
                &&& collected(path_views(baseline_files@)) matches Ok(b)
                &&& collected(path_views(current_files@)) matches Ok(c)
                &&& ident_sorted(ident_views(v@))
                &&& forall|y: IdentityView|
                    ident_views(v@).contains(y) <==> b.contains(y) || c.contains(y)
            },
            Err(e) => collected(path_views(baseline_files@)) == Err::<Seq<IdentityView>, _>(e@)
                || (collected(path_views(baseline_files@)) is Ok && collected(
                path_views(current_files@),
            ) == Err::<Seq<IdentityView>, _>(e@)),
        },
{
    if ids.len() == 0 {
        return layout.identities(baseline_files, current_files);
    }
    let ghost names = path_views(ids@);
    let mut out: Vec<Identity> = Vec::new();
    let mut i: usize = 0;
    assert(names.take(0) =~= Seq::<Seq<char>>::empty());
    assert(ident_views(out@) =~= Seq::<IdentityView>::empty());
    while i < ids.len()
        invariant
            0 <= i <= ids.len(),
            names == path_views(ids@),
            parsed_all(names.take(i as int)) == Ok::<_, IdentityFault>(ident_views(out@)),
        decreases ids.len() - i,
    {
        assert(names.take(i + 1).drop_last() =~= names.take(i as int));
        assert(names[i as int] == ids[i as int]@);
        match Identity::parse(ids[i].as_str()) {
            Ok(v) => {
                let ghost before = ident_views(out@);
                out.push(v);
                assert(ident_views(out@) =~= before.push(v@));
            },
            Err(e) => {
                proof {
                    lemma_parsed_all_err_prefix(names, i + 1);
                }
                return Err(e);
            },
        }
        i = i + 1;
    }
    assert(names.take(ids.len() as int) =~= names);
    Ok(out)
}

/// The identities among `steps` (an identity and what approving it did)
/// whose approval is `a`, in the order of the steps: what
/// [`ApproveOutcome::record`] collects in the list for `a` when it is
/// called for each step in turn.
pub open spec fn recorded_as(steps: Seq<(IdentityView, Approval)>, a: Approval) -> Seq<IdentityView>
    decreases steps.len(),
{
    if steps.len() == 0 {
        Seq::empty()
    } else {
        let rest = recorded_as(steps.drop_last(), a);
        if steps.last().1 == a {
            rest.push(steps.last().0)
        } else {
            rest
        }
    }
}

/// Each identity recorded as `a` is the identity of some step whose
/// approval is `a`.
proof fn lemma_recorded_from_steps(steps: Seq<(IdentityView, Approval)>, a: Approval)
    ensures
        forall|x: int|
            #![trigger recorded_as(steps, a)[x]]
            0 <= x < recorded_as(steps, a).len() ==> exists|k: int|
                0 <= k < steps.len() && steps[k].1 == a && (#[trigger] steps[k]).0 == recorded_as(
                    steps,
                    a,
                )[x],
    decreases steps.len(),
{
    if steps.len() > 0 {
        let init = steps.drop_last();
        lemma_recorded_from_steps(init, a);
        let r = recorded_as(steps, a);
        let r0 = recorded_as(init, a);
        assert forall|x: int| #![trigger r[x]] 0 <= x < r.len() implies exists|k: int|
            0 <= k < steps.len() && steps[k].1 == a && (#[trigger] steps[k]).0 == r[x] by {
            if x < r0.len() {
                let k = choose|k: int|
                    0 <= k < init.len() && init[k].1 == a && (#[trigger] init[k]).0 == r0[x];
                assert(steps[k] == init[k]);
            } else {
                assert(steps[steps.len() - 1] == steps.last());
            }
        }
    }
}

/// The identities of the steps, in order.
pub open spec fn step_identities(steps: Seq<(IdentityView, Approval)>) -> Seq<IdentityView> {
    steps.map_values(|s: (IdentityView, Approval)| s.0)
}

/// Law: when the identities are approved in ascending identity order, each
/// identity once (as they are when none is named), the lists of what was
/// copied, deleted and found unchanged are each in ascending identity order
/// with no id text twice, and no identity, nor id text, is in two of them.
pub proof fn law_outcome_lists_ordered(steps: Seq<(IdentityView, Approval)>)
    requires
        ident_sorted(step_identities(steps)),
        forall|i: int| 0 <= i < steps.len() ==> well_formed((#[trigger] steps[i]).0),
    ensures
        forall|a: Approval| #[trigger] ident_sorted(recorded_as(steps, a)),
        forall|a: Approval, i: int, j: int|
            0 <= i < j < recorded_as(steps, a).len() ==> id_of(#[trigger] recorded_as(steps, a)[i])
                != id_of(#[trigger] recorded_as(steps, a)[j]),
        forall|a: Approval, b: Approval, i: int, j: int|
            a != b && 0 <= i < recorded_as(steps, a).len() && 0 <= j < recorded_as(steps, b).len()
                ==> id_of(#[trigger] recorded_as(steps, a)[i]) != id_of(
                #[trigger] recorded_as(steps, b)[j],
            ),
{
    let ids = step_identities(steps);
    assert forall|a: Approval| #[trigger] ident_sorted(recorded_as(steps, a)) by {
        lemma_recorded_sorted(steps, a);
    }
    assert forall|a: Approval, b: Approval, i: int, j: int|
        0 <= i < recorded_as(steps, a).len() && 0 <= j < recorded_as(steps, b).len() && (a != b
            || i < j) implies id_of(#[trigger] recorded_as(steps, a)[i]) != id_of(
        #[trigger] recorded_as(steps, b)[j],
    ) by {
        lemma_recorded_from_steps(steps, a);
        lemma_recorded_from_steps(steps, b);
        let x = recorded_as(steps, a)[i];
        let y = recorded_as(steps, b)[j];
        let k = choose|k: int| 0 <= k < steps.len() && steps[k].1 == a && (#[trigger] steps[k]).0 == x;
        let m = choose|m: int| 0 <= m < steps.len() && steps[m].1 == b && (#[trigger] steps[m]).0 == y;
        if id_of(x) == id_of(y) {
            law_identity_text_reads_back(x);
            law_identity_text_reads_back(y);
            assert(x == y);
            if a == b {
                lemma_recorded_sorted(steps, a);
                assert(ident_lt(x, y));
                lemma_ident_lt_irreflexive(x);
            } else if k < m {
                assert(ident_lt(ids[k], ids[m]));
                lemma_ident_lt_irreflexive(x);
            } else if m < k {
                assert(ident_lt(ids[m], ids[k]));
                lemma_ident_lt_irreflexive(x);
            }
        }
    }
}

/// The identities recorded as `a` ascend when the steps' identities do.
proof fn lemma_recorded_sorted(steps: Seq<(IdentityView, Approval)>, a: Approval)
    requires
        ident_sorted(step_identities(steps)),
    ensures
        ident_sorted(recorded_as(steps, a)),
    decreases steps.len(),
{
    if steps.len() > 0 {
        let init = steps.drop_last();
        let ids = step_identities(steps);
        assert forall|i: int, j: int| 0 <= i < j < init.len() implies ident_lt(
            #[trigger] step_identities(init)[i],
            #[trigger] step_identities(init)[j],
        ) by {
            assert(step_identities(init)[i] == ids[i] && step_identities(init)[j] == ids[j]);
        }
        lemma_recorded_sorted(init, a);
        lemma_recorded_from_steps(init, a);
        let r0 = recorded_as(init, a);
        let r = recorded_as(steps, a);
        let n = steps.len() - 1;
        if steps.last().1 == a {
            assert forall|i: int, j: int| 0 <= i < j < r.len() implies ident_lt(
                #[trigger] r[i],
                #[trigger] r[j],
            ) by {
                if j < r0.len() {
                    assert(r[i] == r0[i] && r[j] == r0[j]);
                } else {
                    let k = choose|k: int|
                        0 <= k < init.len() && init[k].1 == a && (#[trigger] init[k]).0 == r0[i];
                    assert(r[i] == r0[i]);
                    assert(ids[k] == init[k].0);
                    assert(ids[n] == steps.last().0);
                }
            }
        }
    }
}

/// The identities approved, deleted and found unchanged, by id text.
pub struct ApproveOutcome {
    pub copied: Vec<String>,
    pub deleted: Vec<String>,
    pub unchanged: Vec<String>,
}

impl ApproveOutcome {
    /// Nothing done yet.
    pub fn new() -> (r: ApproveOutcome)
        ensures
            r.copied@.len() == 0,
            r.deleted@.len() == 0,
            r.unchanged@.len() == 0,
    {
        ApproveOutcome { copied: Vec::new(), deleted: Vec::new(), unchanged: Vec::new() }
    }

    /// Records what approving `id` did: its id text joins the list of its
    /// kind; a skipped identity is in none.
    pub fn record(&mut self, id: &Identity, approval: Approval)
        ensures
            approval == Approval::Copied ==> appended(old(self).copied@, final(self).copied@, id_of(id@)),
            approval == Approval::Deleted ==> appended(old(self).deleted@, final(self).deleted@, id_of(id@)),
            approval == Approval::Unchanged ==> appended(old(self).unchanged@, final(self).unchanged@, id_of(id@)),
            approval != Approval::Copied ==> final(self).copied@ == old(self).copied@,
            approval != Approval::Deleted ==> final(self).deleted@ == old(self).deleted@,
            approval != Approval::Unchanged ==> final(self).unchanged@ == old(self).unchanged@,
    {
        match approval {
            Approval::Copied => {
                self.copied.push(id.id());
                assert(self.copied@.drop_last() =~= old(self).copied@);
            },
            Approval::Deleted => {
                self.deleted.push(id.id());
                assert(self.deleted@.drop_last() =~= old(self).deleted@);
            },
            Approval::Unchanged => {
                self.unchanged.push(id.id());
                assert(self.unchanged@.drop_last() =~= old(self).unchanged@);
            },
            Approval::Skipped => {},
        }
    }
}

} // verus!
