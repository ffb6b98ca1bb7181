//! Updating the baseline from a comparison result: changed, mismatched and
//! added screenshots are copied into the baseline with their sidecars, and
//! with pruning removed ones are deleted. The caller reads an entry's
//! identity, looks at its files, asks [`update_baseline`] what to do, performs
//! the operations and records the result; an entry whose id does not parse
//! stops the update with that error.
use vstd::prelude::*;

use crate::files::{apply_op, apply_ops, op_views, remove_if_exists, removal, FileOp, Files, OpView};
use crate::identity::{well_formed, Identity, IdentityView};
use crate::layout::{lemma_identity_files_distinct, relative_path, side_png, side_sidecar, Layout};
use crate::identity_laws::law_identity_text_reads_back;
use crate::layout::{lemma_absolute_profile_files, lemma_absolute_profile_others, lemma_other_identity_files_distinct};
use crate::result::Status;
use crate::text::{appended, owned};

verus! {

/// Which of an identity's files exist, as the update needs it.
#[derive(Debug, Clone, Copy)]
pub struct UpdateFacts {
    pub current_sidecar: bool,
    pub baseline_png: bool,
    pub baseline_sidecar: bool,
}

/// What updating one entry did.
#[derive(Debug, Clone, Copy, PartialEq, Eq, Structural)]
pub enum UpdateKind {
    /// A changed or mismatched screenshot replaced its baseline.
    Updated,
    /// An added screenshot entered the baseline.
    Added,
    /// A removed screenshot left the baseline.
    Deleted,
    /// Nothing to do for this entry.
    Untouched,
}

/// The operations for one entry and what they amount to.
pub struct UpdateStep {
    pub ops: Vec<FileOp>,
    pub kind: UpdateKind,
}

/// The facts as they are in `fs`.
pub open spec fn update_facts_of(fs: Files, bp: Seq<char>, cs: Seq<char>, bs: Seq<char>) -> UpdateFacts {
    UpdateFacts {
        current_sidecar: fs.dom().contains(cs),
        baseline_png: fs.dom().contains(bp),
        baseline_sidecar: fs.dom().contains(bs),
    }
}

/// Whether an entry of this status is copied into the baseline.
pub open spec fn takes_current(status: Status) -> bool {
    status == Status::Changed || status == Status::Mismatch || status == Status::Added
}

/// Updating one entry with status `status` whose files are `cp`, `bp`,
/// `cs` and `bs`: a changed, mismatched or added screenshot is copied into
/// the baseline, with its sidecar rewritten, or the stale baseline sidecar
/// is deleted; with `prune`, a removed screenshot's baseline files are
/// deleted (those that exist); anything else is left alone.
pub open spec fn update_plan(
    cp: Seq<char>,
    bp: Seq<char>,
    cs: Seq<char>,
    bs: Seq<char>,
    status: Status,
    prune: bool,
    f: UpdateFacts,
) -> (Seq<OpView>, UpdateKind) {
    if takes_current(status) {
        (
            seq![OpView::Copy(cp, bp)] + if f.current_sidecar {
                seq![OpView::CopySidecar(cs, bs)]
            } else {
                removal(bs, f.baseline_sidecar)
            },
            if status == Status::Added {
                UpdateKind::Added
            } else {
                UpdateKind::Updated
            },
        )
    } else if status == Status::Removed && prune {
        (
            removal(bp, f.baseline_png) + removal(bs, f.baseline_sidecar),
            UpdateKind::Deleted,
        )
    } else {
        (Seq::empty(), UpdateKind::Untouched)
    }
}

/// The plan for `id` under `l`.
pub open spec fn update_plan_for(l: Layout, v: IdentityView, status: Status, prune: bool, f: UpdateFacts) -> (Seq<OpView>, UpdateKind) {
    update_plan(
        side_png(l.root@, "current"@, l.profile@, v),
        side_png(l.root@, "baseline"@, l.profile@, v),
        side_sidecar(l.root@, "current"@, l.profile@, v),
        side_sidecar(l.root@, "baseline"@, l.profile@, v),
        status,
        prune,
        f,
    )
}

/// What to do for an entry of identity `id` and status `status`, given
/// the facts about its files.
pub fn update_baseline(layout: &Layout, id: &Identity, status: Status, prune: bool, facts: &UpdateFacts) -> (r: UpdateStep)
    ensures
        op_views(r.ops@) == update_plan_for(*layout, id@, status, prune, *facts).0,
        r.kind == update_plan_for(*layout, id@, status, prune, *facts).1,
{
    let mut ops: Vec<FileOp> = Vec::new();
    let kind;
    match status {
        Status::Changed | Status::Mismatch | Status::Added => {
            ops.push(FileOp::Copy(layout.current_png(id), layout.baseline_png(id)));
            if facts.current_sidecar {
                ops.push(FileOp::CopySidecar(layout.current_sidecar(id), layout.baseline_sidecar(id)));
            } else {
                let mut rest = remove_if_exists(layout.baseline_sidecar(id), facts.baseline_sidecar);
                ops.append(&mut rest);
            }
            kind = match status {
                Status::Added => UpdateKind::Added,
                _ => UpdateKind::Updated,
            };
        },
        Status::Removed if prune => {
            let mut png = remove_if_exists(layout.baseline_png(id), facts.baseline_png);
            let mut sidecar = remove_if_exists(layout.baseline_sidecar(id), facts.baseline_sidecar);
            ops.append(&mut png);
            ops.append(&mut sidecar);
            kind = UpdateKind::Deleted;
        },
        _ => {
            kind = UpdateKind::Untouched;
        },
    }
    assert(op_views(ops@) =~= update_plan_for(*layout, id@, status, prune, *facts).0);
    UpdateStep { ops, kind }
}

/// Law: updating an entry promotes its current screenshot. Run on files
/// `fs` with the facts read from them: for a changed, mismatched or added
/// entry the operations succeed exactly when the current screenshot exists
/// (else the copy fails, and the update stops there), and afterwards the
/// baseline screenshot holds its bytes and the baseline sidecar is the
/// rewritten current one, or absent when there is none; for a removed entry
/// with pruning both baseline files are gone; other entries change
/// nothing. Files other than the two baseline ones never change. (With an
/// absolute profile the baseline and current directories are one.)
pub proof fn law_update_promotes_current(
    fs: Files,
    layout: Layout,
    v: IdentityView,
    status: Status,
    prune: bool,
    rewrite: spec_fn(Seq<u8>) -> Seq<u8>,
)
    requires
        well_formed(v),
    ensures
        ({
            let cp = side_png(layout.root@, "current"@, layout.profile@, v);
            let bp = side_png(layout.root@, "baseline"@, layout.profile@, v);
            let cs = side_sidecar(layout.root@, "current"@, layout.profile@, v);
            let bs = side_sidecar(layout.root@, "baseline"@, layout.profile@, v);
            let plan = update_plan(cp, bp, cs, bs, status, prune, update_facts_of(fs, bp, cs, bs));
            let after = apply_ops(fs, plan.0, rewrite);
            &&& takes_current(status) ==> {
                &&& after is Some <==> fs.dom().contains(cp)
                &&& after is Some ==> {
                    let g = after->0;
                    &&& g.dom().contains(bp) && g[bp] == fs[cp]
                    &&& g.dom().contains(bs) == fs.dom().contains(cs)
                    &&& fs.dom().contains(cs) ==> g[bs] == rewrite(fs[cs])
                }
            }
            &&& status == Status::Removed && prune ==> after is Some && !after->0.dom().contains(bp)
                && !after->0.dom().contains(bs)
            &&& !takes_current(status) && !(status == Status::Removed && prune) ==> after == Some(fs)
            &&& after is Some ==> forall|p: Seq<char>|
                p != bp && p != bs ==> (#[trigger] after->0.dom().contains(p) == fs.dom().contains(p)
                    && (fs.dom().contains(p) ==> after->0[p] == fs[p]))
        }),
{
    let cp = side_png(layout.root@, "current"@, layout.profile@, v);
    let bp = side_png(layout.root@, "baseline"@, layout.profile@, v);
    let cs = side_sidecar(layout.root@, "current"@, layout.profile@, v);
    let bs = side_sidecar(layout.root@, "baseline"@, layout.profile@, v);
    if relative_path(layout.profile@) {
        lemma_identity_files_distinct(layout.root@, layout.profile@, v);
    } else {
        lemma_absolute_profile_files(layout.root@, layout.profile@, v);
    }
    let f = update_facts_of(fs, bp, cs, bs);
    let plan = update_plan(cp, bp, cs, bs, status, prune, f);
    let ops = plan.0;
    reveal_with_fuel(apply_ops, 3);
    if ops.len() == 2 {
        assert(ops.drop_last().drop_last() =~= Seq::<OpView>::empty());
        assert(ops.drop_last() =~= seq![ops[0]]);
        let g1 = apply_ops(fs, ops.drop_last(), rewrite);
        assert(g1 == apply_op(fs, ops[0], rewrite));
    } else if ops.len() == 1 {
        assert(ops.drop_last() =~= Seq::<OpView>::empty());
    }
    let after = apply_ops(fs, ops, rewrite);
    if after is Some {
        let g = after->0;
        assert forall|p: Seq<char>| p != bp && p != bs implies (#[trigger] g.dom().contains(p)
            == fs.dom().contains(p) && (fs.dom().contains(p) ==> g[p] == fs[p])) by {}
    }
}

/// Updating the baseline for entries `es` (identity and status) one after
/// another on files `fs`: each entry's facts are read from the files as the
/// earlier entries left them; `None` once an operation fails.
pub open spec fn update_run(
    fs: Files,
    l: Layout,
    es: Seq<(IdentityView, Status)>,
    prune: bool,
    rewrite: spec_fn(Seq<u8>) -> Seq<u8>,
) -> Option<Files>
    decreases es.len(),
{
    if es.len() == 0 {
        Some(fs)
    } else {
        match update_run(fs, l, es.drop_last(), prune, rewrite) {
            None => None,
            Some(g) => {
                let (v, status) = es.last();
                let cp = side_png(l.root@, "current"@, l.profile@, v);
                let bp = side_png(l.root@, "baseline"@, l.profile@, v);
                let cs = side_sidecar(l.root@, "current"@, l.profile@, v);
                let bs = side_sidecar(l.root@, "baseline"@, l.profile@, v);
                apply_ops(
                    g,
                    update_plan(cp, bp, cs, bs, status, prune, update_facts_of(g, bp, cs, bs)).0,
                    rewrite,
                )
            },
        }
    }
}

/// A path is none of the baseline files of the entries' identities.
pub open spec fn outside_entry_baselines(l: Layout, es: Seq<(IdentityView, Status)>, p: Seq<char>) -> bool {
    forall|i: int|
        0 <= i < es.len() ==> p != side_png(l.root@, "baseline"@, l.profile@, (#[trigger] es[i]).0)
            && p != side_sidecar(l.root@, "baseline"@, l.profile@, es[i].0)
}

/// Two statuses do the same to a baseline screenshot: both copy the
/// current one into it, both delete it, or neither touches it.
pub open spec fn same_effect(a: Status, b: Status, prune: bool) -> bool {
    &&& takes_current(a) == takes_current(b)
    &&& (a == Status::Removed && prune) == (b == Status::Removed && prune)
}

/// Every entry of the identity of entry `i` does what entry `i` does.
pub open spec fn effect_agrees(es: Seq<(IdentityView, Status)>, i: int, prune: bool) -> bool {
    forall|j: int|
        0 <= j < es.len() && (#[trigger] es[j]).0 == es[i].0 ==> same_effect(es[j].1, es[i].1, prune)
}

/// What the entry `e` leaves in `g`, from files `fs`: its current
/// screenshot in the baseline when it is changed, mismatched or added; no
/// baseline screenshot when it is removed and pruned; else the baseline
/// screenshot as it was.
pub open spec fn entry_promoted(fs: Files, g: Files, l: Layout, e: (IdentityView, Status), prune: bool) -> bool {
    let cp = side_png(l.root@, "current"@, l.profile@, e.0);
    let bp = side_png(l.root@, "baseline"@, l.profile@, e.0);
    &&& takes_current(e.1) ==> g.dom().contains(bp) && g[bp] == fs[cp]
    &&& e.1 == Status::Removed && prune ==> !g.dom().contains(bp)
    &&& !takes_current(e.1) && !(e.1 == Status::Removed && prune) ==> (g.dom().contains(bp)
        == fs.dom().contains(bp) && (fs.dom().contains(bp) ==> g[bp] == fs[bp]))
}

/// The update can run to its end: every changed, mismatched or added
/// entry's current screenshot exists, and, where the profile is absolute
/// (current and baseline then share their files) and removed entries are
/// pruned, no removed entry comes before a copied entry of its identity.
pub open spec fn update_run_ready(fs: Files, l: Layout, es: Seq<(IdentityView, Status)>, prune: bool) -> bool {
    &&& forall|i: int|
        0 <= i < es.len() && takes_current((#[trigger] es[i]).1) ==> fs.dom().contains(
            side_png(l.root@, "current"@, l.profile@, es[i].0),
        )
    &&& !relative_path(l.profile@) && prune ==> forall|i: int, j: int|
        0 <= i < j < es.len() && (#[trigger] es[i]).0 == (#[trigger] es[j]).0 && es[i].1
            == Status::Removed ==> !takes_current(es[j].1)
}

proof fn lemma_ready_prefix(fs: Files, l: Layout, es: Seq<(IdentityView, Status)>, prune: bool)
    requires
        es.len() > 0,
        update_run_ready(fs, l, es, prune),
    ensures
        update_run_ready(fs, l, es.drop_last(), prune),
        forall|i: int| 0 <= i < es.len() - 1 ==> es.drop_last()[i] == #[trigger] es[i],
{
    let init = es.drop_last();
    assert forall|i: int| 0 <= i < es.len() - 1 implies init[i] == #[trigger] es[i] by {}
    assert forall|i: int|
        0 <= i < init.len() && takes_current((#[trigger] init[i]).1) implies fs.dom().contains(
        side_png(l.root@, "current"@, l.profile@, init[i].0),
    ) by {
        assert(init[i] == es[i]);
    }
    if !relative_path(l.profile@) && prune {
        assert forall|i: int, j: int|
            0 <= i < j < init.len() && (#[trigger] init[i]).0 == (#[trigger] init[j]).0 && init[i].1
                == Status::Removed implies !takes_current(init[j].1) by {
            assert(init[i] == es[i] && init[j] == es[j]);
        }
    }
}

/// A path that no entry rewrites or deletes under an absolute profile:
/// no baseline sidecar, and no baseline screenshot of a pruned removal.
spec fn kept_under_absolute(l: Layout, es: Seq<(IdentityView, Status)>, prune: bool, p: Seq<char>) -> bool {
    forall|i: int|
        0 <= i < es.len() ==> p != side_sidecar(l.root@, "baseline"@, l.profile@, (#[trigger] es[i]).0)
            && !(es[i].1 == Status::Removed && prune && p == side_png(
            l.root@,
            "baseline"@,
            l.profile@,
            es[i].0,
        ))
}

/// With an absolute profile a copy puts a screenshot onto itself, so only
/// sidecars and pruned screenshots change.
proof fn lemma_update_run_absolute(
    fs: Files,
    l: Layout,
    es: Seq<(IdentityView, Status)>,
    prune: bool,
    rewrite: spec_fn(Seq<u8>) -> Seq<u8>,
)
    requires
        !relative_path(l.profile@),
        forall|i: int| 0 <= i < es.len() ==> well_formed((#[trigger] es[i]).0),
        update_run_ready(fs, l, es, prune),
    ensures
        update_run(fs, l, es, prune, rewrite) is Some,
        forall|p: Seq<char>|
            #[trigger] kept_under_absolute(l, es, prune, p) ==> {
                let g = update_run(fs, l, es, prune, rewrite)->0;
                &&& g.dom().contains(p) == fs.dom().contains(p)
                &&& fs.dom().contains(p) ==> g[p] == fs[p]
            },
        forall|i: int|
            0 <= i < es.len() && (#[trigger] es[i]).1 == Status::Removed && prune ==> !update_run(
                fs,
                l,
                es,
                prune,
                rewrite,
            )->0.dom().contains(side_png(l.root@, "baseline"@, l.profile@, es[i].0)),
    decreases es.len(),
{
    if es.len() > 0 {
        let init = es.drop_last();
        lemma_ready_prefix(fs, l, es, prune);
        assert forall|i: int| 0 <= i < init.len() implies well_formed((#[trigger] init[i]).0) by {
            assert(init[i] == es[i]);
        }
        lemma_update_run_absolute(fs, l, init, prune, rewrite);
        let g0 = update_run(fs, l, init, prune, rewrite)->0;
        let last = es.len() - 1;
        let (v, st) = es[last];
        assert(well_formed(es[last].0));
        law_update_promotes_current(g0, l, v, st, prune, rewrite);
        lemma_absolute_profile_files(l.root@, l.profile@, v);
        let cp = side_png(l.root@, "current"@, l.profile@, v);
        let bp = side_png(l.root@, "baseline"@, l.profile@, v);
        let cs = side_sidecar(l.root@, "current"@, l.profile@, v);
        let bs = side_sidecar(l.root@, "baseline"@, l.profile@, v);
        // Other identities' baseline files are other paths.
        assert forall|k: int| 0 <= k < init.len() && (#[trigger] init[k]).0 != v implies {
            &&& bp != side_png(l.root@, "baseline"@, l.profile@, init[k].0)
            &&& bp != side_sidecar(l.root@, "baseline"@, l.profile@, init[k].0)
            &&& bs != side_png(l.root@, "baseline"@, l.profile@, init[k].0)
        } by {
            let w = init[k].0;
            assert(init[k] == es[k]);
            law_identity_text_reads_back(v);
            law_identity_text_reads_back(w);
            lemma_absolute_profile_others(l.root@, l.profile@, v, w);
            lemma_absolute_profile_others(l.root@, l.profile@, w, v);
        }
        assert forall|k: int| 0 <= k < init.len() && (#[trigger] init[k]).0 == v implies bp
            != side_sidecar(l.root@, "baseline"@, l.profile@, init[k].0) by {}
        let after = apply_ops(
            g0,
            update_plan(cp, bp, cs, bs, st, prune, update_facts_of(g0, bp, cs, bs)).0,
            rewrite,
        );
        assert(update_run(fs, l, es, prune, rewrite) == after);
        if takes_current(st) {
            assert forall|k: int| 0 <= k < init.len() && (#[trigger] init[k]).0 == v implies init[k].1
                != Status::Removed || !prune by {
                assert(init[k] == es[k]);
            }
            assert(kept_under_absolute(l, init, prune, bp));
            assert(fs.dom().contains(cp)) by {
                assert(takes_current(es[last].1));
            }
        }
        assert(after is Some);
        let g = after->0;
        assert forall|p: Seq<char>| #[trigger] kept_under_absolute(l, es, prune, p) implies {
            &&& g.dom().contains(p) == fs.dom().contains(p)
            &&& fs.dom().contains(p) ==> g[p] == fs[p]
        } by {
            assert forall|k: int| 0 <= k < init.len() implies p != side_sidecar(
                l.root@,
                "baseline"@,
                l.profile@,
                (#[trigger] init[k]).0,
            ) && !(init[k].1 == Status::Removed && prune && p == side_png(
                l.root@,
                "baseline"@,
                l.profile@,
                init[k].0,
            )) by {
                assert(init[k] == es[k]);
            }
            assert(kept_under_absolute(l, init, prune, p));
            assert(p != bs) by {
                assert(es[last] == (v, st));
            }
            assert(g0.dom().contains(p) == fs.dom().contains(p));
            assert(fs.dom().contains(p) ==> g0[p] == fs[p]);
            if p == bp {
                assert(!(st == Status::Removed && prune));
                if takes_current(st) {
                    assert(g0.dom().contains(cp));
                    assert(g.dom().contains(bp) && g[bp] == g0[cp]);
                } else {
                    assert(after == Some(g0));
                }
            } else {
                assert(g.dom().contains(p) == g0.dom().contains(p));
                assert(g0.dom().contains(p) ==> g[p] == g0[p]);
            }
        }
        assert forall|i: int|
            0 <= i < es.len() && (#[trigger] es[i]).1 == Status::Removed && prune implies !g.dom().contains(
            side_png(l.root@, "baseline"@, l.profile@, es[i].0),
        ) by {
            if i < init.len() {
                assert(init[i] == es[i]);
                let w = es[i].0;
                if w == v {
                    assert(!takes_current(st));
                } else {
                    law_identity_text_reads_back(v);
                    law_identity_text_reads_back(w);
                    lemma_absolute_profile_others(l.root@, l.profile@, v, w);
                }
            }
        }
    }
}

/// Under a relative profile no update touches a current file, and an
/// entry changes only its own identity's baseline files.
proof fn lemma_update_run_relative(
    fs: Files,
    l: Layout,
    es: Seq<(IdentityView, Status)>,
    prune: bool,
    rewrite: spec_fn(Seq<u8>) -> Seq<u8>,
)
    requires
        relative_path(l.profile@),
        forall|i: int| 0 <= i < es.len() ==> well_formed((#[trigger] es[i]).0),
        update_run_ready(fs, l, es, prune),
    ensures
        update_run(fs, l, es, prune, rewrite) is Some,
        forall|i: int|
            0 <= i < es.len() && effect_agrees(es, i, prune) ==> entry_promoted(
                fs,
                update_run(fs, l, es, prune, rewrite)->0,
                l,
                #[trigger] es[i],
                prune,
            ),
        forall|p: Seq<char>|
            #[trigger] outside_entry_baselines(l, es, p) ==> {
                let g = update_run(fs, l, es, prune, rewrite)->0;
                &&& g.dom().contains(p) == fs.dom().contains(p)
                &&& fs.dom().contains(p) ==> g[p] == fs[p]
            },
    decreases es.len(),
{
    if es.len() > 0 {
        let init = es.drop_last();
        lemma_ready_prefix(fs, l, es, prune);
        assert forall|i: int| 0 <= i < init.len() implies well_formed((#[trigger] init[i]).0) by {
            assert(init[i] == es[i]);
        }
        lemma_update_run_relative(fs, l, init, prune, rewrite);
        let g0 = update_run(fs, l, init, prune, rewrite)->0;
        let last = es.len() - 1;
        let (v, st) = es[last];
        assert(well_formed(es[last].0));
        law_update_promotes_current(g0, l, v, st, prune, rewrite);
        lemma_identity_files_distinct(l.root@, l.profile@, v);
        let cp = side_png(l.root@, "current"@, l.profile@, v);
        let bp = side_png(l.root@, "baseline"@, l.profile@, v);
        let cs = side_sidecar(l.root@, "current"@, l.profile@, v);
        let bs = side_sidecar(l.root@, "baseline"@, l.profile@, v);
        assert forall|k: int| 0 <= k < init.len() implies {
            &&& cp != side_png(l.root@, "baseline"@, l.profile@, (#[trigger] init[k]).0)
            &&& cp != side_sidecar(l.root@, "baseline"@, l.profile@, init[k].0)
            &&& init[k].0 != v ==> {
                &&& bp != side_png(l.root@, "baseline"@, l.profile@, init[k].0)
                &&& bp != side_sidecar(l.root@, "baseline"@, l.profile@, init[k].0)
                &&& bs != side_png(l.root@, "baseline"@, l.profile@, init[k].0)
                &&& bs != side_sidecar(l.root@, "baseline"@, l.profile@, init[k].0)
            }
        } by {
            let w = init[k].0;
            assert(init[k] == es[k]);
            if w != v {
                law_identity_text_reads_back(v);
                law_identity_text_reads_back(w);
                lemma_other_identity_files_distinct(l.root@, l.profile@, v, w);
                lemma_other_identity_files_distinct(l.root@, l.profile@, w, v);
            }
        }
        assert(outside_entry_baselines(l, init, cp));
        assert(takes_current(st) ==> g0.dom().contains(cp)) by {
            if takes_current(st) {
                assert(takes_current(es[last].1));
            }
        }
        let after = apply_ops(
            g0,
            update_plan(cp, bp, cs, bs, st, prune, update_facts_of(g0, bp, cs, bs)).0,
            rewrite,
        );
        assert(update_run(fs, l, es, prune, rewrite) == after);
        assert(after is Some);
        let g = after->0;
        // The last entry, whenever every entry of its identity agrees with it.
        assert(effect_agrees(es, last, prune) ==> entry_promoted(fs, g, l, (v, st), prune)) by {
            if effect_agrees(es, last, prune) && !takes_current(st) && !(st == Status::Removed
                && prune) {
                if exists|k: int| 0 <= k < init.len() && (#[trigger] init[k]).0 == v {
                    let k = choose|k: int| 0 <= k < init.len() && (#[trigger] init[k]).0 == v;
                    assert(init[k] == es[k]);
                    assert(same_effect(es[k].1, st, prune));
                    assert forall|j: int| 0 <= j < init.len() && (#[trigger] init[j]).0
                        == init[k].0 implies same_effect(init[j].1, init[k].1, prune) by {
                        assert(init[j] == es[j]);
                        assert(same_effect(es[j].1, st, prune));
                    }
                    assert(effect_agrees(init, k, prune));
                    assert(entry_promoted(fs, g0, l, init[k], prune));
                } else {
                    assert(outside_entry_baselines(l, init, bp));
                }
            }
        }
        assert forall|i: int| 0 <= i < es.len() && effect_agrees(es, i, prune) implies entry_promoted(
            fs,
            g,
            l,
            #[trigger] es[i],
            prune,
        ) by {
            if i < init.len() {
                assert(init[i] == es[i]);
                let w = es[i].0;
                if w == v {
                    assert(same_effect(es[last].1, es[i].1, prune));
                    assert forall|j: int| 0 <= j < es.len() && (#[trigger] es[j]).0
                        == es[last].0 implies same_effect(es[j].1, es[last].1, prune) by {
                        assert(same_effect(es[j].1, es[i].1, prune));
                    }
                    assert(effect_agrees(es, last, prune));
                } else {
                    assert forall|j: int| 0 <= j < init.len() && (#[trigger] init[j]).0
                        == init[i].0 implies same_effect(init[j].1, init[i].1, prune) by {
                        assert(init[j] == es[j]);
                    }
                    assert(effect_agrees(init, i, prune));
                    assert(entry_promoted(fs, g0, l, init[i], prune));
                    let bpi = side_png(l.root@, "baseline"@, l.profile@, w);
                    assert(bpi != bp && bpi != bs);
                    assert(g.dom().contains(bpi) == g0.dom().contains(bpi));
                    assert(g0.dom().contains(bpi) ==> g[bpi] == g0[bpi]);
                }
            } else {
                assert(es[i] == (v, st));
            }
        }
        assert forall|p: Seq<char>| #[trigger] outside_entry_baselines(l, es, p) implies {
            &&& g.dom().contains(p) == fs.dom().contains(p)
            &&& fs.dom().contains(p) ==> g[p] == fs[p]
        } by {
            assert forall|k: int| 0 <= k < init.len() implies p != side_png(
                l.root@,
                "baseline"@,
                l.profile@,
                (#[trigger] init[k]).0,
            ) && p != side_sidecar(l.root@, "baseline"@, l.profile@, init[k].0) by {
                assert(init[k] == es[k]);
            }
            assert(outside_entry_baselines(l, init, p));
            assert(p != bp && p != bs) by {
                assert(es[last] == (v, st));
            }
            assert(g.dom().contains(p) == g0.dom().contains(p));
            assert(g0.dom().contains(p) ==> g[p] == g0[p]);
            assert(g0.dom().contains(p) == fs.dom().contains(p));
        }
    }
}

/// Law: updating the baseline for entries of well-formed identities
/// succeeds when the update can run to its end (see [`update_run_ready`]);
/// afterwards each changed, mismatched or added entry's baseline screenshot
/// holds its current bytes, each removed entry's baseline screenshot is gone
/// when pruning, every other entry's baseline screenshot is as it was, and
/// every file that is not a baseline file of these identities is as it was.
/// Where an identity has several entries, this is said of each of them
/// when they all do the same to its baseline screenshot; otherwise the last
/// of them decides.
pub proof fn law_update_run_promotes_each(
    fs: Files,
    l: Layout,
    es: Seq<(IdentityView, Status)>,
    prune: bool,
    rewrite: spec_fn(Seq<u8>) -> Seq<u8>,
)
    requires
        forall|i: int| 0 <= i < es.len() ==> well_formed((#[trigger] es[i]).0),
        update_run_ready(fs, l, es, prune),
    ensures
        update_run(fs, l, es, prune, rewrite) is Some,
        forall|i: int|
            0 <= i < es.len() && effect_agrees(es, i, prune) ==> entry_promoted(
                fs,
                update_run(fs, l, es, prune, rewrite)->0,
                l,
                #[trigger] es[i],
                prune,
            ),
        forall|p: Seq<char>|
            #[trigger] outside_entry_baselines(l, es, p) ==> {
                let g = update_run(fs, l, es, prune, rewrite)->0;
                &&& g.dom().contains(p) == fs.dom().contains(p)
                &&& fs.dom().contains(p) ==> g[p] == fs[p]
            },
{
    if relative_path(l.profile@) {
        lemma_update_run_relative(fs, l, es, prune, rewrite);
    } else {
        lemma_update_run_absolute(fs, l, es, prune, rewrite);
        let g = update_run(fs, l, es, prune, rewrite)->0;
        assert forall|i: int| 0 <= i < es.len() && effect_agrees(es, i, prune) implies entry_promoted(
            fs,
            g,
            l,
            #[trigger] es[i],
            prune,
        ) by {
            let v = es[i].0;
            lemma_absolute_profile_files(l.root@, l.profile@, v);
            let bp = side_png(l.root@, "baseline"@, l.profile@, v);
            if !(es[i].1 == Status::Removed && prune) {
                assert forall|k: int| 0 <= k < es.len() implies bp != side_sidecar(
                    l.root@,
                    "baseline"@,
                    l.profile@,
                    (#[trigger] es[k]).0,
                ) && !(es[k].1 == Status::Removed && prune && bp == side_png(
                    l.root@,
                    "baseline"@,
                    l.profile@,
                    es[k].0,
                )) by {
                    let w = es[k].0;
                    if w == v {
                        assert(same_effect(es[k].1, es[i].1, prune));
                    } else {
                        law_identity_text_reads_back(v);
                        law_identity_text_reads_back(w);
                        lemma_absolute_profile_others(l.root@, l.profile@, v, w);
                        lemma_absolute_profile_others(l.root@, l.profile@, w, v);
                    }
                }
                assert(kept_under_absolute(l, es, prune, bp));
            }
        }
        assert forall|p: Seq<char>| #[trigger] outside_entry_baselines(l, es, p) implies {
            &&& g.dom().contains(p) == fs.dom().contains(p)
            &&& fs.dom().contains(p) ==> g[p] == fs[p]
        } by {
            assert(kept_under_absolute(l, es, prune, p));
        }
    }
}

/// The entries updated, added and deleted, by their id text in the result.
pub struct UpdateOutcome {
    pub updated: Vec<String>,
    pub added: Vec<String>,
    pub deleted: Vec<String>,
}

impl UpdateOutcome {
    /// Nothing done yet.
    pub fn new() -> (r: UpdateOutcome)
        ensures
            r.updated@.len() == 0,
            r.added@.len() == 0,
            r.deleted@.len() == 0,
    {
        UpdateOutcome { updated: Vec::new(), added: Vec::new(), deleted: Vec::new() }
    }

    /// Records what updating the entry with id text `id` did: the text
    /// joins the list of its kind; an untouched entry is in none.
    pub fn record(&mut self, id: &str, kind: UpdateKind)
        ensures
            kind == UpdateKind::Updated ==> appended(old(self).updated@, final(self).updated@, id@),
            kind == UpdateKind::Added ==> appended(old(self).added@, final(self).added@, id@),
            kind == UpdateKind::Deleted ==> appended(old(self).deleted@, final(self).deleted@, id@),
            kind != UpdateKind::Updated ==> final(self).updated@ == old(self).updated@,
            kind != UpdateKind::Added ==> final(self).added@ == old(self).added@,
            kind != UpdateKind::Deleted ==> final(self).deleted@ == old(self).deleted@,
    {
        match kind {
            UpdateKind::Updated => {
                self.updated.push(owned(id));
                assert(self.updated@.drop_last() =~= old(self).updated@);
            },
            UpdateKind::Added => {
                self.added.push(owned(id));
                assert(self.added@.drop_last() =~= old(self).added@);
            },
            UpdateKind::Deleted => {
                self.deleted.push(owned(id));
                assert(self.deleted@.drop_last() =~= old(self).deleted@);
            },
            UpdateKind::Untouched => {},
        }
    }
}

} // verus!
