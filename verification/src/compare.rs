//! Comparing one identity's baseline and current screenshot, and summing a
//! run. Reading files, decoding images and measuring pixel differences are
//! work for the caller: [`compare_step`] says which fact it needs next and,
//! once it has enough, the entry for the identity.
use vstd::prelude::*;

use crate::config::{Policy, Severity};
use crate::identity::{id_of, Identity, IdentityView};
use crate::layout::{path_join, relative_to, Layout};
use crate::result::{
    count_of, counted, occurrences, opt_view, statuses, zero_summary, DiffBounds, Entry,
    EntryView, Ratio, ResultFile, Status, Summary, SCHEMA_VERSION,
};
use crate::sidecar::{check_sidecar, sidecar_verdict, SidecarFields, SidecarRaw};
use crate::text::{decimal, owned, push_decimal, push_str};

verus! {

/// The pixel sizes of both decoded images.
#[derive(Debug, Clone, Copy)]
pub struct Dimensions {
    pub baseline_width: u32,
    pub baseline_height: u32,
    pub current_width: u32,
    pub current_height: u32,
}

/// What the pixel diff found: the differing pixels, their bounding box,
/// and whether they exceed the allowance of the identity's settings.
#[derive(Debug, Clone, Copy)]
pub struct DiffFacts {
    pub diff_pixels: u64,
    pub diff_bounds: Option<DiffBounds>,
    pub changed: bool,
}

/// The facts gathered so far about one identity; `None` is not known yet.
#[derive(Debug)]
pub struct PairFacts {
    pub baseline_exists: bool,
    pub current_exists: bool,
    pub current_sidecar: Option<SidecarRaw>,
    pub baseline_sidecar: Option<SidecarRaw>,
    /// Whether the two PNG files hold the same bytes, or why they could not
    /// be read.
    pub bytes_equal: Option<Result<bool, String>>,
    /// The sizes of the decoded images, or why one did not decode.
    pub dimensions: Option<Result<Dimensions, String>>,
    /// Whether the sidecars' scales differ: the message saying so, or none.
    pub scale: Option<Option<String>>,
    /// The pixel diff, with its image written, or why that failed.
    pub diff: Option<Result<DiffFacts, String>>,
}

impl PairFacts {
    /// Nothing known beyond which screenshots exist.
    pub fn new(baseline_exists: bool, current_exists: bool) -> (r: PairFacts)
        ensures
            r.baseline_exists == baseline_exists,
            r.current_exists == current_exists,
            r.current_sidecar is None,
            r.baseline_sidecar is None,
            r.bytes_equal is None,
            r.dimensions is None,
            r.scale is None,
            r.diff is None,
    {
        PairFacts {
            baseline_exists,
            current_exists,
            current_sidecar: None,
            baseline_sidecar: None,
            bytes_equal: None,
            dimensions: None,
            scale: None,
            diff: None,
        }
    }
}

/// The fact the comparison needs next.
#[derive(Debug, Clone, Copy, PartialEq, Eq, Structural)]
pub enum Need {
    CurrentSidecar,
    BaselineSidecar,
    Bytes,
    Dimensions,
    Scale,
    Diff,
}

/// Either the next fact to gather or the finished entry.
#[derive(Debug)]
pub enum Step {
    Need(Need),
    Done(Entry),
}

/// The mathematical form of a [`Step`].
pub enum StepView {
    Need(Need),
    Done(EntryView),
}

/// A file of one side of the layout: `<root>/<side>/<profile>/<id><ext>`.
pub open spec fn side_file(
    root: Seq<char>,
    profile: Seq<char>,
    side: Seq<char>,
    id: IdentityView,
    ext: Seq<char>,
) -> Seq<char> {
    path_join(path_join(path_join(root, side), profile), id_of(id) + ext)
}

/// The entry before any fact beyond existence: status error, with the
/// relative paths of the screenshots that exist.
pub open spec fn start_entry(root: Seq<char>, profile: Seq<char>, id: IdentityView, facts: PairFacts) -> EntryView {
    EntryView {
        id: id_of(id),
        status: Status::Error,
        diff_ratio: None,
        diff_pixels: None,
        diff_bounds: None,
        baseline: if facts.baseline_exists {
            Some(relative_to(side_file(root, profile, "baseline"@, id, ".png"@), root))
        } else {
            None
        },
        current: if facts.current_exists {
            Some(relative_to(side_file(root, profile, "current"@, id, ".png"@), root))
        } else {
            None
        },
        diff: None,
        message: None,
        captured_at: None,
    }
}

/// `e` with message `m` (its status stays error).
pub open spec fn with_message(e: EntryView, m: Seq<char>) -> EntryView {
    EntryView { message: Some(m), ..e }
}

/// `"dimensions differ: baseline <w>x<h>, current <w>x<h>"`.
pub open spec fn dimensions_text(d: Dimensions) -> Seq<char> {
    "dimensions differ: baseline "@ + decimal(d.baseline_width as nat) + "x"@ + decimal(
        d.baseline_height as nat,
    ) + ", current "@ + decimal(d.current_width as nat) + "x"@ + decimal(d.current_height as nat)
}

/// The decision once both sidecars passed: existence, then byte equality,
/// then dimensions, then scale (only when both sidecars exist), then the
/// pixel diff.
pub open spec fn pair_decision(
    root: Seq<char>,
    profile: Seq<char>,
    id: IdentityView,
    facts: PairFacts,
    e1: EntryView,
    both_sidecars: bool,
) -> StepView {
    if !facts.baseline_exists && !facts.current_exists {
        StepView::Done(with_message(e1, "neither baseline nor current exists"@))
    } else if !facts.current_exists {
        StepView::Done(EntryView { status: Status::Removed, ..e1 })
    } else if !facts.baseline_exists {
        StepView::Done(EntryView { status: Status::Added, ..e1 })
    } else {
        match facts.bytes_equal {
            None => StepView::Need(Need::Bytes),
            Some(Err(m)) => StepView::Done(with_message(e1, m@)),
            Some(Ok(true)) => StepView::Done(
                EntryView {
                    status: Status::Unchanged,
                    diff_ratio: Some(Ratio { num: 0, den: 1 }),
                    diff_pixels: Some(0),
                    ..e1
                },
            ),
            Some(Ok(false)) => match facts.dimensions {
                None => StepView::Need(Need::Dimensions),
                Some(Err(m)) => StepView::Done(with_message(e1, m@)),
                Some(Ok(d)) => if d.baseline_width != d.current_width || d.baseline_height
                    != d.current_height {
                    StepView::Done(
                        EntryView {
                            status: Status::Mismatch,
                            message: Some(dimensions_text(d)),
                            ..e1
                        },
                    )
                } else if both_sidecars && facts.scale is None {
                    StepView::Need(Need::Scale)
                } else if both_sidecars && facts.scale matches Some(Some(m)) {
                    StepView::Done(
                        EntryView {
                            status: Status::Mismatch,
                            message: Some(facts.scale->Some_0->Some_0@),
                            ..e1
                        },
                    )
                } else {
                    match facts.diff {
                        None => StepView::Need(Need::Diff),
                        Some(Err(m)) => StepView::Done(with_message(e1, m@)),
                        Some(Ok(df)) => StepView::Done(
                            EntryView {
                                status: if df.changed {
                                    Status::Changed
                                } else {
                                    Status::Unchanged
                                },
                                diff_ratio: Some(
                                    Ratio {
                                        num: df.diff_pixels,
                                        den: (d.baseline_width * d.baseline_height) as u64,
                                    },
                                ),
                                diff_pixels: Some(df.diff_pixels),
                                diff_bounds: df.diff_bounds,
                                diff: if df.diff_pixels > 0 {
                                    Some(
                                        relative_to(
                                            path_join(
                                                path_join(path_join(root, "report"@), "diff"@),
                                                id_of(id) + ".png"@,
                                            ),
                                            root,
                                        ),
                                    )
                                } else {
                                    None
                                },
                                ..e1
                            },
                        ),
                    }
                },
            },
        }
    }
}

/// What comparing identity `id` gives from `facts`: the current sidecar is
/// checked first, then the baseline sidecar, each only when its screenshot
/// exists, and a sidecar problem is an error before anything else is looked
/// at; then [`pair_decision`].
pub open spec fn compare_decision(
    root: Seq<char>,
    profile: Seq<char>,
    id: IdentityView,
    facts: PairFacts,
    binary: Seq<char>,
) -> StepView {
    let start = start_entry(root, profile, id, facts);
    if facts.current_exists && facts.current_sidecar is None {
        StepView::Need(Need::CurrentSidecar)
    } else {
        let cur = if facts.current_exists {
            sidecar_verdict(
                "current"@,
                side_file(root, profile, "current"@, id, ".json"@),
                facts.current_sidecar->Some_0,
                id_of(id),
                binary,
            )
        } else {
            Ok(None)
        };
        match cur {
            Err(m) => StepView::Done(with_message(start, m)),
            Ok(cv) => {
                let e1 = EntryView {
                    captured_at: match cv {
                        Some(f) => opt_view(f.captured_at),
                        None => None,
                    },
                    ..start
                };
                if facts.baseline_exists && facts.baseline_sidecar is None {
                    StepView::Need(Need::BaselineSidecar)
                } else {
                    let base = if facts.baseline_exists {
                        sidecar_verdict(
                            "baseline"@,
                            side_file(root, profile, "baseline"@, id, ".json"@),
                            facts.baseline_sidecar->Some_0,
                            id_of(id),
                            binary,
                        )
                    } else {
                        Ok(None)
                    };
                    match base {
                        Err(m) => StepView::Done(with_message(e1, m)),
                        Ok(bv) => pair_decision(
                            root,
                            profile,
                            id,
                            facts,
                            e1,
                            bv is Some && cv is Some,
                        ),
                    }
                }
            },
        }
    }
}

/// Law: a current sidecar that does not pass makes the identity an error
/// with that sidecar's message, whatever the screenshots hold.
pub proof fn law_bad_current_sidecar_is_error(
    root: Seq<char>,
    profile: Seq<char>,
    id: IdentityView,
    facts: PairFacts,
    binary: Seq<char>,
)
    requires
        facts.current_exists,
        facts.current_sidecar is Some,
        sidecar_verdict(
            "current"@,
            side_file(root, profile, "current"@, id, ".json"@),
            facts.current_sidecar->Some_0,
            id_of(id),
            binary,
        ) is Err,
    ensures
        compare_decision(root, profile, id, facts, binary) matches StepView::Done(e) && e.status
            == Status::Error && e.message == Some(
            sidecar_verdict(
                "current"@,
                side_file(root, profile, "current"@, id, ".json"@),
                facts.current_sidecar->Some_0,
                id_of(id),
                binary,
            )->Err_0,
        ),
{
}

/// Law: with a current sidecar that passes (or no current screenshot), a
/// baseline sidecar that does not pass makes the identity an error with
/// that sidecar's message, before bytes or dimensions are looked at.
pub proof fn law_bad_baseline_sidecar_is_error(
    root: Seq<char>,
    profile: Seq<char>,
    id: IdentityView,
    facts: PairFacts,
    binary: Seq<char>,
)
    requires
        facts.current_exists ==> facts.current_sidecar is Some && sidecar_verdict(
            "current"@,
            side_file(root, profile, "current"@, id, ".json"@),
            facts.current_sidecar->Some_0,
            id_of(id),
            binary,
        ) is Ok,
        facts.baseline_exists,
        facts.baseline_sidecar is Some,
        sidecar_verdict(
            "baseline"@,
            side_file(root, profile, "baseline"@, id, ".json"@),
            facts.baseline_sidecar->Some_0,
            id_of(id),
            binary,
        ) is Err,
    ensures
        compare_decision(root, profile, id, facts, binary) matches StepView::Done(e) && e.status
            == Status::Error && e.message == Some(
            sidecar_verdict(
                "baseline"@,
                side_file(root, profile, "baseline"@, id, ".json"@),
                facts.baseline_sidecar->Some_0,
                id_of(id),
                binary,
            )->Err_0,
        ),
{
}

/// Law: with both screenshots present and both sidecars passing, identical
/// bytes make the identity unchanged with no differing pixel.
pub proof fn law_identical_bytes_are_unchanged(
    root: Seq<char>,
    profile: Seq<char>,
    id: IdentityView,
    facts: PairFacts,
    binary: Seq<char>,
)
    requires
        facts.current_exists,
        facts.baseline_exists,
        facts.current_sidecar is Some,
        facts.baseline_sidecar is Some,
        sidecar_verdict(
            "current"@,
            side_file(root, profile, "current"@, id, ".json"@),
            facts.current_sidecar->Some_0,
            id_of(id),
            binary,
        ) is Ok,
        sidecar_verdict(
            "baseline"@,
            side_file(root, profile, "baseline"@, id, ".json"@),
            facts.baseline_sidecar->Some_0,
            id_of(id),
            binary,
        ) is Ok,
        facts.bytes_equal == Some(Ok::<bool, String>(true)),
    ensures
        compare_decision(root, profile, id, facts, binary) matches StepView::Done(e) && e.status
            == Status::Unchanged && e.diff_pixels == Some(0u64),
{
}

/// Law: with both screenshots present and both sidecars passing, images of
/// different sizes are a mismatch that names both sizes.
pub proof fn law_other_dimensions_are_a_mismatch(
    root: Seq<char>,
    profile: Seq<char>,
    id: IdentityView,
    facts: PairFacts,
    binary: Seq<char>,
    d: Dimensions,
)
    requires
        facts.current_exists,
        facts.baseline_exists,
        facts.current_sidecar is Some,
        facts.baseline_sidecar is Some,
        sidecar_verdict(
            "current"@,
            side_file(root, profile, "current"@, id, ".json"@),
            facts.current_sidecar->Some_0,
            id_of(id),
            binary,
        ) is Ok,
        sidecar_verdict(
            "baseline"@,
            side_file(root, profile, "baseline"@, id, ".json"@),
            facts.baseline_sidecar->Some_0,
            id_of(id),
            binary,
        ) is Ok,
        facts.bytes_equal == Some(Ok::<bool, String>(false)),
        facts.dimensions == Some(Ok::<Dimensions, String>(d)),
        d.baseline_width != d.current_width || d.baseline_height != d.current_height,
    ensures
        compare_decision(root, profile, id, facts, binary) matches StepView::Done(e) && e.status
            == Status::Mismatch && e.message == Some(dimensions_text(d)),
{
}

/// Law: with both screenshots present, both sidecars passing or absent,
/// different bytes, images of one size and no scale difference found (none
/// is looked for unless both sidecars are there), the pixel diff decides:
/// the entry is changed exactly when the diff says its pixels exceed the
/// allowance, else unchanged, and it records the differing pixels, their
/// share of the image and their bounding box.
pub proof fn law_pixel_diff_decides(
    root: Seq<char>,
    profile: Seq<char>,
    id: IdentityView,
    facts: PairFacts,
    binary: Seq<char>,
    d: Dimensions,
    df: DiffFacts,
)
    requires
        facts.current_exists,
        facts.baseline_exists,
        facts.current_sidecar is Some,
        facts.baseline_sidecar is Some,
        sidecar_verdict(
            "current"@,
            side_file(root, profile, "current"@, id, ".json"@),
            facts.current_sidecar->Some_0,
            id_of(id),
            binary,
        ) is Ok,
        sidecar_verdict(
            "baseline"@,
            side_file(root, profile, "baseline"@, id, ".json"@),
            facts.baseline_sidecar->Some_0,
            id_of(id),
            binary,
        ) is Ok,
        facts.bytes_equal == Some(Ok::<bool, String>(false)),
        facts.dimensions == Some(Ok::<Dimensions, String>(d)),
        d.baseline_width == d.current_width,
        d.baseline_height == d.current_height,
        facts.scale == Some(None::<String>) || (facts.scale is None && (facts.current_sidecar
            == Some(SidecarRaw::Absent) || facts.baseline_sidecar == Some(SidecarRaw::Absent))),
        facts.diff == Some(Ok::<DiffFacts, String>(df)),
    ensures
        compare_decision(root, profile, id, facts, binary) matches StepView::Done(e) && e.status
            == (if df.changed {
            Status::Changed
        } else {
            Status::Unchanged
        }) && e.diff_pixels == Some(df.diff_pixels) && e.diff_bounds == df.diff_bounds
            && e.diff_ratio == Some(
            Ratio { num: df.diff_pixels, den: (d.baseline_width * d.baseline_height) as u64 },
        ) && (e.diff is Some <==> df.diff_pixels > 0) && e.message is None,
{
}

/// Law: with both screenshots present, both sidecars passing with their
/// fields, different bytes and images of one size, a scale difference the
/// sidecars show makes the identity a mismatch with that message, before
/// any pixel is compared.
pub proof fn law_other_scale_is_a_mismatch(
    root: Seq<char>,
    profile: Seq<char>,
    id: IdentityView,
    facts: PairFacts,
    binary: Seq<char>,
    d: Dimensions,
    m: String,
)
    requires
        facts.current_exists,
        facts.baseline_exists,
        facts.current_sidecar is Some,
        facts.baseline_sidecar is Some,
        sidecar_verdict(
            "current"@,
            side_file(root, profile, "current"@, id, ".json"@),
            facts.current_sidecar->Some_0,
            id_of(id),
            binary,
        ) matches Ok(Some(_)),
        sidecar_verdict(
            "baseline"@,
            side_file(root, profile, "baseline"@, id, ".json"@),
            facts.baseline_sidecar->Some_0,
            id_of(id),
            binary,
        ) matches Ok(Some(_)),
        facts.bytes_equal == Some(Ok::<bool, String>(false)),
        facts.dimensions == Some(Ok::<Dimensions, String>(d)),
        d.baseline_width == d.current_width,
        d.baseline_height == d.current_height,
        facts.scale == Some(Some(m)),
    ensures
        compare_decision(root, profile, id, facts, binary) matches StepView::Done(e) && e.status
            == Status::Mismatch && e.message == Some(m@) && e.diff_pixels is None,
{
}

/// Law: with sidecars passing or absent and both screenshots present, a
/// fact that could not be gathered (the bytes, the decoded sizes or the
/// pixel diff) makes the identity an error with the reason as its message.
pub proof fn law_unreadable_screenshots_are_errors(
    root: Seq<char>,
    profile: Seq<char>,
    id: IdentityView,
    facts: PairFacts,
    binary: Seq<char>,
    m: String,
)
    requires
        facts.current_exists,
        facts.baseline_exists,
        facts.current_sidecar == Some(SidecarRaw::Absent),
        facts.baseline_sidecar == Some(SidecarRaw::Absent),
        facts.bytes_equal == Some(Err::<bool, String>(m)) || (facts.bytes_equal == Some(
            Ok::<bool, String>(false),
        ) && (facts.dimensions == Some(Err::<Dimensions, String>(m)) || (facts.dimensions matches Some(
            Ok(d),
        ) && d.baseline_width == d.current_width && d.baseline_height == d.current_height
            && facts.diff == Some(Err::<DiffFacts, String>(m))))),
    ensures
        compare_decision(root, profile, id, facts, binary) matches StepView::Done(e) && e.status
            == Status::Error && e.message == Some(m@),
{
}

/// Law: an identity with neither screenshot is an error saying so.
pub proof fn law_neither_screenshot_is_an_error(
    root: Seq<char>,
    profile: Seq<char>,
    id: IdentityView,
    facts: PairFacts,
    binary: Seq<char>,
)
    requires
        !facts.current_exists,
        !facts.baseline_exists,
    ensures
        compare_decision(root, profile, id, facts, binary) matches StepView::Done(e) && e.status
            == Status::Error && e.message == Some("neither baseline nor current exists"@),
{
}

/// Law: a screenshot only on one side is added or removed once its
/// sidecar passes.
pub proof fn law_one_side_is_added_or_removed(
    root: Seq<char>,
    profile: Seq<char>,
    id: IdentityView,
    facts: PairFacts,
    binary: Seq<char>,
)
    requires
        facts.current_exists != facts.baseline_exists,
        facts.current_exists ==> facts.current_sidecar is Some && sidecar_verdict(
            "current"@,
            side_file(root, profile, "current"@, id, ".json"@),
            facts.current_sidecar->Some_0,
            id_of(id),
            binary,
        ) is Ok,
        facts.baseline_exists ==> facts.baseline_sidecar is Some && sidecar_verdict(
            "baseline"@,
            side_file(root, profile, "baseline"@, id, ".json"@),
            facts.baseline_sidecar->Some_0,
            id_of(id),
            binary,
        ) is Ok,
    ensures
        compare_decision(root, profile, id, facts, binary) matches StepView::Done(e) && e.status
            == (if facts.current_exists {
            Status::Added
        } else {
            Status::Removed
        }),
{
}

/// The fact a need asks for is still unknown.
pub open spec fn unknown(facts: PairFacts, n: Need) -> bool {
    match n {
        Need::CurrentSidecar => facts.current_sidecar is None,
        Need::BaselineSidecar => facts.baseline_sidecar is None,
        Need::Bytes => facts.bytes_equal is None,
        Need::Dimensions => facts.dimensions is None,
        Need::Scale => facts.scale is None,
        Need::Diff => facts.diff is None,
    }
}

fn message_entry(e: Entry, m: String) -> (r: Entry)
    ensures
        r@ == with_message(e@, m@),
{
    Entry { message: Some(m), ..e }
}

fn copy_text(s: &Option<String>) -> (r: Option<String>)
    ensures
        opt_view(r) == opt_view(*s),
{
    match s {
        Some(t) => Some(t.clone()),
        None => None,
    }
}

fn dimensions_message(d: &Dimensions) -> (r: String)
    ensures
        r@ == dimensions_text(*d),
{
    let mut r = owned("dimensions differ: baseline ");
    push_decimal(&mut r, d.baseline_width as u64);
    push_str(&mut r, "x");
    push_decimal(&mut r, d.baseline_height as u64);
    push_str(&mut r, ", current ");
    push_decimal(&mut r, d.current_width as u64);
    push_str(&mut r, "x");
    push_decimal(&mut r, d.current_height as u64);
    assert(r@ =~= dimensions_text(*d));
    r
}

/// One step of comparing identity `id` of `layout`: the next fact to
/// gather, or the finished entry once the facts decide it. `binary` is this
/// program's version, which the message for a too-new sidecar names.
pub fn compare_step(layout: &Layout, id: &Identity, facts: &PairFacts, binary: &str) -> (r: Step)
    ensures
        match r {
            Step::Need(n) => compare_decision(layout.root@, layout.profile@, id@, *facts, binary@)
                == StepView::Need(n) && unknown(*facts, n),
            Step::Done(e) => compare_decision(layout.root@, layout.profile@, id@, *facts, binary@)
                == StepView::Done(e@),
        },
{
    let ghost root = layout.root@;
    let ghost profile = layout.profile@;
    let idt = id.id();
    let baseline = if facts.baseline_exists {
        let p = layout.baseline_png(id);
        Some(layout.relative(p.as_str()))
    } else {
        None
    };
    let current = if facts.current_exists {
        let p = layout.current_png(id);
        Some(layout.relative(p.as_str()))
    } else {
        None
    };
    let start = Entry {
        id: idt,
        status: Status::Error,
        diff_ratio: None,
        diff_pixels: None,
        diff_bounds: None,
        baseline,
        current,
        diff: None,
        message: None,
        captured_at: None,
    };
    assert(start@ == start_entry(root, profile, id@, *facts));
    if facts.current_exists && facts.current_sidecar.is_none() {
        return Step::Need(Need::CurrentSidecar);
    }
    let cur: Option<SidecarFields> = if facts.current_exists {
        let path = layout.current_sidecar(id);
        match facts.current_sidecar.as_ref().unwrap() {
            raw => match check_sidecar("current", path.as_str(), raw, id, binary) {
                Err(m) => {
                    return Step::Done(message_entry(start, m));
                },
                Ok(v) => v,
            },
        }
    } else {
        None
    };
    let captured_at = match &cur {
        Some(f) => copy_text(&f.captured_at),
        None => None,
    };
    let e1 = Entry { captured_at, ..start };
    if facts.baseline_exists && facts.baseline_sidecar.is_none() {
        return Step::Need(Need::BaselineSidecar);
    }
    let base: Option<SidecarFields> = if facts.baseline_exists {
        let path = layout.baseline_sidecar(id);
        match facts.baseline_sidecar.as_ref().unwrap() {
            raw => match check_sidecar("baseline", path.as_str(), raw, id, binary) {
                Err(m) => {
                    return Step::Done(message_entry(e1, m));
                },
                Ok(v) => v,
            },
        }
    } else {
        None
    };
    let both = base.is_some() && cur.is_some();
    if !facts.baseline_exists && !facts.current_exists {
        return Step::Done(message_entry(e1, owned("neither baseline nor current exists")));
    }
    if !facts.current_exists {
        return Step::Done(Entry { status: Status::Removed, ..e1 });
    }
    if !facts.baseline_exists {
        return Step::Done(Entry { status: Status::Added, ..e1 });
    }
    match &facts.bytes_equal {
        None => {
            return Step::Need(Need::Bytes);
        },
        Some(Err(m)) => {
            return Step::Done(message_entry(e1, m.clone()));
        },
        Some(Ok(true)) => {
            return Step::Done(
                Entry {
                    status: Status::Unchanged,
                    diff_ratio: Some(Ratio { num: 0, den: 1 }),
                    diff_pixels: Some(0),
                    ..e1
                },
            );
        },
        Some(Ok(false)) => {},
    }
    let d = match &facts.dimensions {
        None => {
            return Step::Need(Need::Dimensions);
        },
        Some(Err(m)) => {
            return Step::Done(message_entry(e1, m.clone()));
        },
        Some(Ok(d)) => *d,
    };
    if d.baseline_width != d.current_width || d.baseline_height != d.current_height {
        let m = dimensions_message(&d);
        return Step::Done(Entry { status: Status::Mismatch, message: Some(m), ..e1 });
    }
    if both {
        match &facts.scale {
            None => {
                return Step::Need(Need::Scale);
            },
            Some(Some(m)) => {
                return Step::Done(
                    Entry { status: Status::Mismatch, message: Some(m.clone()), ..e1 },
                );
            },
            Some(None) => {},
        }
    }
    match &facts.diff {
        None => Step::Need(Need::Diff),
        Some(Err(m)) => Step::Done(message_entry(e1, m.clone())),
        Some(Ok(df)) => {
            let diff = if df.diff_pixels > 0 {
                let p = layout.diff_png(id);
                Some(layout.relative(p.as_str()))
            } else {
                None
            };
            let w = d.baseline_width as u64;
            let h = d.baseline_height as u64;
            assert(w * h <= 0xffff_ffff * 0xffff_ffff) by (nonlinear_arith)
                requires
                    w <= 0xffff_ffff,
                    h <= 0xffff_ffff,
            ;
            let total = w * h;
            Step::Done(
                Entry {
                    status: if df.changed {
                        Status::Changed
                    } else {
                        Status::Unchanged
                    },
                    diff_ratio: Some(Ratio { num: df.diff_pixels, den: total }),
                    diff_pixels: Some(df.diff_pixels),
                    diff_bounds: df.diff_bounds,
                    diff,
                    ..e1
                },
            )
        },
    }
}

/// Whether a status fails the run under `policy`: changed always does,
/// unchanged and error never do, the others as the policy says.
pub open spec fn fails(policy: Policy, status: Status) -> bool {
    match status {
        Status::Unchanged | Status::Error => false,
        Status::Changed => true,
        Status::Added => policy.added == Severity::Fail,
        Status::Removed => policy.removed == Severity::Fail,
        Status::Mismatch => policy.mismatch == Severity::Fail,
    }
}

/// Law: each policy setting governs its own status. An added screenshot
/// fails the run exactly when the policy for added ones is fail, a removed
/// one exactly when the policy for removed ones is, a mismatch exactly when
/// the policy for mismatches is; a changed screenshot always fails, and
/// unchanged and errored ones never do.
pub proof fn law_each_policy_setting_governs_its_status(policy: Policy)
    ensures
        fails(policy, Status::Added) <==> policy.added == Severity::Fail,
        fails(policy, Status::Removed) <==> policy.removed == Severity::Fail,
        fails(policy, Status::Mismatch) <==> policy.mismatch == Severity::Fail,
        fails(policy, Status::Changed),
        !fails(policy, Status::Unchanged),
        !fails(policy, Status::Error),
{
}

/// Whether `status` fails the run under `policy`.
pub fn is_failure(policy: &Policy, status: Status) -> (r: bool)
    ensures
        r == fails(*policy, status),
        status == Status::Added ==> (r <==> policy.added == Severity::Fail),
        status == Status::Removed ==> (r <==> policy.removed == Severity::Fail),
        status == Status::Mismatch ==> (r <==> policy.mismatch == Severity::Fail),
        status == Status::Changed ==> r,
        status == Status::Unchanged || status == Status::Error ==> !r,
{
    match status {
        Status::Unchanged | Status::Error => false,
        Status::Changed => true,
        Status::Added => policy.added == Severity::Fail,
        Status::Removed => policy.removed == Severity::Fail,
        Status::Mismatch => policy.mismatch == Severity::Fail,
    }
}

/// The summary of a list of statuses.
pub open spec fn summary_of(ss: Seq<Status>) -> Summary
    decreases ss.len(),
{
    if ss.len() == 0 {
        zero_summary()
    } else {
        counted(summary_of(ss.drop_last()), ss.last())
    }
}

/// Law: each count of the summary is the number of entries with that
/// status.
pub proof fn law_summary_counts_statuses(ss: Seq<Status>, status: Status)
    requires
        ss.len() < u32::MAX,
    ensures
        count_of(summary_of(ss), status) == occurrences(ss, status),
    decreases ss.len(),
{
    if ss.len() > 0 {
        law_summary_counts_statuses(ss.drop_last(), status);
        law_summary_counts_statuses(ss.drop_last(), ss.last());
        lemma_occurrences_bound(ss.drop_last(), ss.last());
    }
}

proof fn lemma_occurrences_bound(ss: Seq<Status>, status: Status)
    ensures
        occurrences(ss, status) <= ss.len(),
    decreases ss.len(),
{
    if ss.len() > 0 {
        lemma_occurrences_bound(ss.drop_last(), status);
    }
}

/// The outcome of a run: the result, whether the policy fails it, and
/// whether any entry is an error.
#[derive(Debug)]
pub struct CompareOutcome {
    pub result: ResultFile,
    pub failed: bool,
    pub errored: bool,
}

/// Sums the entries of a run (in the order given) into its result.
pub fn compare(policy: &Policy, profile: String, binary: String, entries: Vec<Entry>) -> (r:
    CompareOutcome)
    requires
        entries.len() < u32::MAX,
    ensures
        r.result.results@ == entries@,
        r.result.summary == summary_of(statuses(entries@)),
        forall|st: Status| count_of(r.result.summary, st) == occurrences(statuses(entries@), st),
        r.result.schema_version == SCHEMA_VERSION,
        r.result.profile@ == profile@,
        opt_view(r.result.mitame_version) == Some(binary@),
        r.failed <==> exists|i: int|
            0 <= i < entries.len() && fails(*policy, (#[trigger] entries@[i]).status),
        r.errored <==> exists|i: int|
            0 <= i < entries.len() && (#[trigger] entries@[i]).status == Status::Error,
{
    let ghost ss = statuses(entries@);
    let mut summary = Summary::new();
    let mut failed = false;
    let mut errored = false;
    let mut i: usize = 0;
    assert(ss.take(0) =~= Seq::<Status>::empty());
    while i < entries.len()
        invariant
            0 <= i <= entries.len() < u32::MAX,
            ss == statuses(entries@),
            summary == summary_of(ss.take(i as int)),
            failed <==> exists|j: int| 0 <= j < i && fails(*policy, (#[trigger] entries@[j]).status),
            errored <==> exists|j: int|
                0 <= j < i && (#[trigger] entries@[j]).status == Status::Error,
        decreases entries.len() - i,
    {
        let st = entries[i].status;
        proof {
            let t = ss.take(i + 1);
            assert(t.drop_last() =~= ss.take(i as int));
            assert(t.last() == st);
            law_summary_counts_statuses(ss.take(i as int), st);
            lemma_occurrences_bound(ss.take(i as int), st);
        }
        summary.count(st);
        if is_failure(policy, st) {
            failed = true;
        }
        if st == Status::Error {
            errored = true;
        }
        i = i + 1;
    }
    assert(ss.take(entries.len() as int) =~= ss);
    proof {
        assert forall|st: Status| count_of(summary, st) == occurrences(ss, st) by {
            law_summary_counts_statuses(ss, st);
        }
    }
    CompareOutcome {
        result: ResultFile {
            schema_version: SCHEMA_VERSION,
            mitame_version: Some(binary),
            profile,
            summary,
            results: entries,
        },
        failed,
        errored,
    }
}

} // verus!
