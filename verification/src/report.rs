//! The HTML report: a self-contained page listing every entry grouped by
//! status, with copies of the images it shows.
use vstd::prelude::*;

use crate::files::FileOp;
use crate::layout::{path_join, Layout};
use crate::result::{count_of, Entry, Ratio, ResultFile, Status, Summary};
use crate::text::{decimal, owned, percent_text, push_char, push_decimal, push_percent, push_str, chars_of};

verus! {

/// The report's style sheet.
pub const STYLE: &'static str = r#"
:root { color-scheme: light dark; --bg: #fff; --fg: #1a1a1a; --muted: #666; --line: #e3e3e3; --card: #fafafa;
  --changed: #c62828; --added: #2e7d32; --removed: #ef6c00; --mismatch: #6a1b9a; --error: #b71c1c; --unchanged: #616161; }
@media (prefers-color-scheme: dark) { :root { --bg: #121212; --fg: #e8e8e8; --muted: #9a9a9a; --line: #2c2c2c; --card: #1c1c1c; } }
* { box-sizing: border-box; }
body { margin: 0; padding: 24px; font: 14px/1.5 system-ui, sans-serif; background: var(--bg); color: var(--fg); }
h1 { font-size: 20px; margin: 0 0 4px; }
.meta { color: var(--muted); margin-bottom: 16px; }
.summary { display: flex; flex-wrap: wrap; gap: 8px; margin-bottom: 24px; }
.summary a { padding: 6px 12px; border: 1px solid var(--line); border-radius: 999px; text-decoration: none; color: var(--fg); background: var(--card); }
.summary a b { margin-right: 6px; }
.summary a.off { opacity: .45; }
section h2 { font-size: 16px; margin: 24px 0 8px; text-transform: capitalize; }
.entry { border: 1px solid var(--line); border-radius: 8px; padding: 12px; margin-bottom: 12px; background: var(--card); }
.entry.hidden { display: none; }
.entry header { display: flex; flex-wrap: wrap; gap: 8px 16px; align-items: baseline; margin-bottom: 8px; }
.entry header code { font-size: 13px; }
.status { font-weight: 600; text-transform: uppercase; font-size: 11px; letter-spacing: .04em; }
.status.changed { color: var(--changed); } .status.added { color: var(--added); } .status.removed { color: var(--removed); }
.status.mismatch { color: var(--mismatch); } .status.error { color: var(--error); } .status.unchanged { color: var(--unchanged); }
.detail { color: var(--muted); }
.images { display: grid; grid-template-columns: repeat(auto-fit, minmax(240px, 1fr)); gap: 12px; }
figure { margin: 0; }
figcaption { color: var(--muted); font-size: 12px; margin-bottom: 4px; }
img { max-width: 100%; height: auto; border: 1px solid var(--line); background:
  repeating-conic-gradient(#8882 0 25%, transparent 0 50%) 0 0 / 16px 16px; }
"#;

/// The report's script: clicking a status in the summary hides or shows
/// its entries.
pub const SCRIPT: &'static str = r#"
document.querySelectorAll('.summary a').forEach(function (a) {
  a.addEventListener('click', function (e) {
    e.preventDefault();
    a.classList.toggle('off');
    var status = a.dataset.status;
    document.querySelectorAll('.entry[data-status="' + status + '"]').forEach(function (el) {
      el.classList.toggle('hidden', a.classList.contains('off'));
    });
  });
});
"#;

/// The lowercase name of a status.
pub open spec fn status_word(s: Status) -> Seq<char> {
    match s {
        Status::Changed => "changed"@,
        Status::Added => "added"@,
        Status::Removed => "removed"@,
        Status::Mismatch => "mismatch"@,
        Status::Error => "error"@,
        Status::Unchanged => "unchanged"@,
    }
}

/// The lowercase name of a status.
pub fn status_name(s: Status) -> (r: &'static str)
    ensures
        r@ == status_word(s),
{
    match s {
        Status::Changed => "changed",
        Status::Added => "added",
        Status::Removed => "removed",
        Status::Mismatch => "mismatch",
        Status::Error => "error",
        Status::Unchanged => "unchanged",
    }
}

/// One character as HTML text.
pub open spec fn escape_char(c: char) -> Seq<char> {
    if c == '&' {
        "&amp;"@
    } else if c == '<' {
        "&lt;"@
    } else if c == '>' {
        "&gt;"@
    } else if c == '"' {
        "&quot;"@
    } else if c == '\'' {
        "&#39;"@
    } else {
        seq![c]
    }
}

/// Text as HTML: `& < > " '` become entities, other characters stay.
pub open spec fn escaped(s: Seq<char>) -> Seq<char>
    decreases s.len(),
{
    if s.len() == 0 {
        Seq::empty()
    } else {
        escaped(s.drop_last()) + escape_char(s.last())
    }
}

/// Appends `s` as HTML text.
pub fn push_escaped(out: &mut String, s: &str)
    ensures
        final(out)@ == old(out)@ + escaped(s@),
{
    let cs = chars_of(s);
    let mut i: usize = 0;
    assert(old(out)@ + escaped(cs@.take(0)) =~= old(out)@) by {
        assert(cs@.take(0) =~= Seq::<char>::empty());
    }
    while i < cs.len()
        invariant
            0 <= i <= cs.len(),
            out@ == old(out)@ + escaped(cs@.take(i as int)),
        decreases cs.len() - i,
    {
        let c = cs[i];
        let ghost before = out@;
        if c == '&' {
            push_str(out, "&amp;");
        } else if c == '<' {
            push_str(out, "&lt;");
        } else if c == '>' {
            push_str(out, "&gt;");
        } else if c == '"' {
            push_str(out, "&quot;");
        } else if c == '\'' {
            push_str(out, "&#39;");
        } else {
            push_char(out, c);
        }
        assert(out@ =~= before + escape_char(c));
        proof {
            let t = cs@.take(i + 1);
            assert(t.drop_last() =~= cs@.take(i as int));
            assert(t.last() == c);
        }
        i = i + 1;
    }
    assert(cs@.take(cs.len() as int) =~= cs@);
}

/// `s` as HTML text.
pub fn escape(s: &str) -> (r: String)
    ensures
        r@ == escaped(s@),
{
    let mut r = String::new();
    push_escaped(&mut r, s);
    assert(Seq::<char>::empty() + escaped(s@) =~= escaped(s@));
    r
}

/// A root-relative path made relative to the report directory: a leading
/// `report/` is dropped.
pub open spec fn from_report(p: Seq<char>) -> Seq<char> {
    if p.len() >= 7 && p.take(7) == "report/"@ {
        p.skip(7)
    } else {
        p
    }
}

/// A root-relative path made relative to the report directory.
pub fn report_relative(p: &str) -> (r: String)
    ensures
        r@ == from_report(p@),
{
    let cs = chars_of(p);
    let prefix = chars_of("report/");
    let mut same = cs.len() >= prefix.len();
    let mut i: usize = 0;
    while same && i < prefix.len()
        invariant
            0 <= i <= prefix.len(),
            same ==> cs.len() >= prefix.len() && cs@.take(i as int) == prefix@.take(i as int),
            !same ==> !(cs@.len() >= prefix@.len() && cs@.take(prefix@.len() as int) == prefix@),
        decreases prefix.len() - i,
    {
        if cs[i] != prefix[i] {
            same = false;
            assert(cs@.take(prefix@.len() as int)[i as int] != prefix@[i as int]);
        } else {
            assert(cs@.take(i + 1) =~= cs@.take(i as int).push(cs@[i as int]));
            assert(prefix@.take(i + 1) =~= prefix@.take(i as int).push(prefix@[i as int]));
        }
        i = i + 1;
    }
    proof {
        reveal_strlit("report/");
        assert(prefix@.len() == 7);
        if same {
            assert(prefix@.take(7) =~= prefix@);
        }
    }
    if same {
        crate::text::string_of(&cs, 7, cs.len())
    } else {
        owned(p)
    }
}

/// `<figure>` showing the image at `path`, labelled `label`.
pub open spec fn figure(label: Seq<char>, path: Seq<char>) -> Seq<char> {
    "<figure><figcaption>"@ + label + "</figcaption><a href=\""@ + escaped(path) + "\"><img src=\""@
        + escaped(path) + "\" alt=\""@ + label + "\" loading=\"lazy\"></a></figure>"@
}

fn figure_text(label: &str, path: &str) -> (r: String)
    ensures
        r@ == figure(label@, path@),
{
    let mut out = owned("<figure><figcaption>");
    push_str(&mut out, label);
    push_str(&mut out, "</figcaption><a href=\"");
    push_escaped(&mut out, path);
    push_str(&mut out, "\"><img src=\"");
    push_escaped(&mut out, path);
    push_str(&mut out, "\" alt=\"");
    push_str(&mut out, label);
    push_str(&mut out, "\" loading=\"lazy\"></a></figure>");
    out
}

/// Where the report keeps its copy of one side's image of an entry:
/// `<side>/<id>.png`, relative to the report directory.
pub open spec fn copied_image(side: Seq<char>, id: Seq<char>) -> Seq<char> {
    side + "/"@ + id + ".png"@
}

fn copied_path(side: &str, id: &str) -> (r: String)
    ensures
        r@ == copied_image(side@, id@),
{
    let mut r = owned(side);
    push_str(&mut r, "/");
    push_str(&mut r, id);
    push_str(&mut r, ".png");
    r
}

/// The baseline figure of an entry, if it has a baseline.
pub open spec fn baseline_figure(e: Entry) -> Seq<char> {
    if e.baseline is Some {
        figure("baseline"@, copied_image("baseline"@, e.id@))
    } else {
        Seq::empty()
    }
}

/// The current figure of an entry, if it has a current screenshot.
pub open spec fn current_figure(e: Entry) -> Seq<char> {
    if e.current is Some {
        figure("current"@, copied_image("current"@, e.id@))
    } else {
        Seq::empty()
    }
}

/// The diff figure of an entry, if it has a diff image.
pub open spec fn diff_figure(e: Entry) -> Seq<char> {
    match e.diff {
        Some(d) => figure("diff"@, from_report(d@)),
        None => Seq::empty(),
    }
}

/// Whether the report shows an entry's images: it is not unchanged, or
/// some of its pixels differ.
pub open spec fn shows_images(e: Entry) -> bool {
    e.status != Status::Unchanged || (e.diff_pixels matches Some(p) && p > 0)
}

fn shows_images_exec(e: &Entry) -> (r: bool)
    ensures
        r == shows_images(*e),
{
    if e.status != Status::Unchanged {
        return true;
    }
    match e.diff_pixels {
        Some(p) => p > 0,
        None => false,
    }
}

/// The images of an entry the report shows images of: its baseline and
/// current copies and its diff, those it has.
pub open spec fn images(e: Entry) -> Seq<char> {
    if !shows_images(e) {
        Seq::empty()
    } else {
        "<div class=\"images\">"@ + baseline_figure(e) + current_figure(e) + diff_figure(e)
            + "</div>"@
    }
}

fn images_text(e: &Entry) -> (r: String)
    ensures
        r@ == images(*e),
{
    if !shows_images_exec(e) {
        return String::new();
    }
    let b = if e.baseline.is_some() {
        let p = copied_path("baseline", e.id.as_str());
        figure_text("baseline", p.as_str())
    } else {
        String::new()
    };
    let c = if e.current.is_some() {
        let p = copied_path("current", e.id.as_str());
        figure_text("current", p.as_str())
    } else {
        String::new()
    };
    let d = match &e.diff {
        Some(d) => {
            let p = report_relative(d.as_str());
            figure_text("diff", p.as_str())
        },
        None => String::new(),
    };
    let mut out = owned("<div class=\"images\">");
    push_str(&mut out, b.as_str());
    push_str(&mut out, c.as_str());
    push_str(&mut out, d.as_str());
    push_str(&mut out, "</div>");
    out
}

/// The decimals the report gives a share of differing pixels: three below
/// one percent, two from one percent up.
pub open spec fn report_places(num: u64, den: u64) -> nat {
    if (num as int) * 100 < den as int || den == 0 {
        3
    } else {
        2
    }
}

/// For an entry with a measured difference, its share of differing pixels
/// and their number.
pub open spec fn ratio_detail(e: Entry) -> Seq<char> {
    if e.diff_ratio is Some && e.diff_pixels is Some {
        "<span class=\"detail\">"@ + percent_text(
            e.diff_ratio->Some_0.num,
            e.diff_ratio->Some_0.den,
            report_places(e.diff_ratio->Some_0.num, e.diff_ratio->Some_0.den),
        ) + "% · "@ + decimal(e.diff_pixels->Some_0 as nat) + " px</span>"@
    } else {
        Seq::empty()
    }
}

/// Law: an entry with a measured difference shows its share with three
/// decimals when it is below one percent, with two otherwise, followed by
/// its number of differing pixels.
pub proof fn law_ratio_detail_shows_share_and_pixels(e: Entry)
    requires
        e.diff_ratio is Some,
        e.diff_pixels is Some,
        e.diff_ratio->Some_0.den > 0,
    ensures
        ({
            let q = e.diff_ratio->Some_0;
            let places: nat = if (q.num as int) * 100 < q.den as int { 3 } else { 2 };
            let tail = "% · "@ + decimal(e.diff_pixels->Some_0 as nat) + " px</span>"@;
            ratio_detail(e) == "<span class=\"detail\">"@ + percent_text(q.num, q.den, places) + tail
        }),
{
    let q = e.diff_ratio->Some_0;
    let tail = "% · "@ + decimal(e.diff_pixels->Some_0 as nat) + " px</span>"@;
    let head = "<span class=\"detail\">"@ + percent_text(q.num, q.den, report_places(q.num, q.den));
    assert(ratio_detail(e) =~= head + tail);
}

/// The message of an entry, if any.
pub open spec fn message_detail(e: Entry) -> Seq<char> {
    match e.message {
        Some(m) => "<span class=\"detail\">"@ + escaped(m@) + "</span>"@,
        None => Seq::empty(),
    }
}

fn ratio_detail_text(e: &Entry) -> (r: String)
    ensures
        r@ == ratio_detail(*e),
{
    if e.diff_ratio.is_some() && e.diff_pixels.is_some() {
        let q = e.diff_ratio.unwrap();
        let mut out = owned("<span class=\"detail\">");
        let places: u32 = if (q.num as u128) * 100 < (q.den as u128) || q.den == 0 {
            3
        } else {
            2
        };
        push_percent(&mut out, q.num, q.den, places);
        push_str(&mut out, "% · ");
        push_decimal(&mut out, e.diff_pixels.unwrap());
        push_str(&mut out, " px</span>");
        out
    } else {
        String::new()
    }
}

fn message_detail_text(e: &Entry) -> (r: String)
    ensures
        r@ == message_detail(*e),
{
    match &e.message {
        Some(m) => {
            let mut out = owned("<span class=\"detail\">");
            push_escaped(&mut out, m.as_str());
            push_str(&mut out, "</span>");
            out
        },
        None => String::new(),
    }
}

/// When the entry's current screenshot was captured, if its sidecar says.
pub open spec fn captured_detail(e: Entry) -> Seq<char> {
    match e.captured_at {
        Some(t) => "<span class=\"detail\">captured "@ + escaped(t@) + "</span>"@,
        None => Seq::empty(),
    }
}

fn captured_detail_text(e: &Entry) -> (r: String)
    ensures
        r@ == captured_detail(*e),
{
    match &e.captured_at {
        Some(t) => {
            let mut out = owned("<span class=\"detail\">captured ");
            push_escaped(&mut out, t.as_str());
            push_str(&mut out, "</span>");
            out
        },
        None => String::new(),
    }
}

/// ` hidden` for unchanged entries.
pub open spec fn hidden(e: Entry) -> Seq<char> {
    if e.status == Status::Unchanged {
        " hidden"@
    } else {
        Seq::empty()
    }
}

/// One entry as an `<article>`: its status, id, share of differing pixels,
/// message and capture time, then its images; unchanged entries start
/// hidden.
pub open spec fn entry_html(e: Entry) -> Seq<char> {
    "<article class=\"entry"@ + hidden(e) + "\" data-status=\""@ + status_word(e.status)
        + "\"><header><span class=\"status "@ + status_word(e.status) + "\">"@ + status_word(
        e.status,
    ) + "</span><code>"@ + escaped(e.id@) + "</code>"@ + ratio_detail(e) + message_detail(e)
        + captured_detail(e) + "</header>"@ + images(e) + "</article>"@
}

fn entry_text(e: &Entry) -> (r: String)
    ensures
        r@ == entry_html(*e),
{
    let name = status_name(e.status);
    let h = if e.status == Status::Unchanged {
        owned(" hidden")
    } else {
        String::new()
    };
    let rd = ratio_detail_text(e);
    let md = message_detail_text(e);
    let cd = captured_detail_text(e);
    let im = images_text(e);
    let mut out = owned("<article class=\"entry");
    push_str(&mut out, h.as_str());
    push_str(&mut out, "\" data-status=\"");
    push_str(&mut out, name);
    push_str(&mut out, "\"><header><span class=\"status ");
    push_str(&mut out, name);
    push_str(&mut out, "\">");
    push_str(&mut out, name);
    push_str(&mut out, "</span><code>");
    push_escaped(&mut out, e.id.as_str());
    push_str(&mut out, "</code>");
    push_str(&mut out, rd.as_str());
    push_str(&mut out, md.as_str());
    push_str(&mut out, cd.as_str());
    push_str(&mut out, "</header>");
    push_str(&mut out, im.as_str());
    push_str(&mut out, "</article>");
    out
}

/// The entries with status `st`, in order.
pub open spec fn with_status(es: Seq<Entry>, st: Status) -> Seq<Entry>
    decreases es.len(),
{
    if es.len() == 0 {
        Seq::empty()
    } else {
        let r = with_status(es.drop_last(), st);
        if es.last().status == st {
            r.push(es.last())
        } else {
            r
        }
    }
}

/// The entries one after another.
pub open spec fn entries_html(es: Seq<Entry>) -> Seq<char>
    decreases es.len(),
{
    if es.len() == 0 {
        Seq::empty()
    } else {
        entries_html(es.drop_last()) + entry_html(es.last())
    }
}

/// The section of one status: nothing when no entry has it.
pub open spec fn section(es: Seq<Entry>, st: Status) -> Seq<char> {
    let f = with_status(es, st);
    if f.len() == 0 {
        Seq::empty()
    } else {
        "<section id=\""@ + status_word(st) + "\"><h2>"@ + status_word(st) + " ("@ + decimal(
            f.len(),
        ) + ")</h2>"@ + entries_html(f) + "</section>"@
    }
}

fn section_text(es: &Vec<Entry>, st: Status) -> (r: String)
    requires
        es.len() <= u64::MAX,
    ensures
        r@ == section(es@, st),
{
    let mut n: u64 = 0;
    let mut i: usize = 0;
    let mut body = String::new();
    assert(es@.take(0) =~= Seq::<Entry>::empty());
    while i < es.len()
        invariant
            0 <= i <= es.len() <= u64::MAX,
            n == with_status(es@.take(i as int), st).len(),
            n <= i,
            body@ == entries_html(with_status(es@.take(i as int), st)),
        decreases es.len() - i,
    {
        let ghost f0 = with_status(es@.take(i as int), st);
        proof {
            let t = es@.take(i + 1);
            assert(t.drop_last() =~= es@.take(i as int));
            assert(t.last() == es@[i as int]);
        }
        if es[i].status == st {
            let ghost f1 = with_status(es@.take(i + 1), st);
            assert(f1 == f0.push(es@[i as int]));
            assert(f1.drop_last() =~= f0);
            let t = entry_text(&es[i]);
            push_str(&mut body, t.as_str());
            n = n + 1;
        }
        i = i + 1;
    }
    assert(es@.take(es.len() as int) =~= es@);
    if n > 0 {
        let name = status_name(st);
        let mut out = owned("<section id=\"");
        push_str(&mut out, name);
        push_str(&mut out, "\"><h2>");
        push_str(&mut out, name);
        push_str(&mut out, " (");
        push_decimal(&mut out, n);
        push_str(&mut out, ")</h2>");
        push_str(&mut out, body.as_str());
        push_str(&mut out, "</section>");
        out
    } else {
        String::new()
    }
}

/// ` class="off"` for the unchanged link when there are unchanged entries.
pub open spec fn off(st: Status, count: u32) -> Seq<char> {
    if st == Status::Unchanged && count > 0 {
        " class=\"off\""@
    } else {
        Seq::empty()
    }
}

/// One link of the summary bar: the count and name of a status; the
/// unchanged link starts switched off when there are unchanged entries.
pub open spec fn nav_link(st: Status, count: u32) -> Seq<char> {
    "<a href=\"#"@ + status_word(st) + "\" data-status=\""@ + status_word(st) + "\""@ + off(
        st,
        count,
    ) + "><b>"@ + decimal(count as nat) + "</b>"@ + status_word(st) + "</a>"@
}

fn nav_link_text(st: Status, count: u32) -> (r: String)
    ensures
        r@ == nav_link(st, count),
{
    let name = status_name(st);
    let o = if st == Status::Unchanged && count > 0 {
        owned(" class=\"off\"")
    } else {
        String::new()
    };
    let mut out = owned("<a href=\"#");
    push_str(&mut out, name);
    push_str(&mut out, "\" data-status=\"");
    push_str(&mut out, name);
    push_str(&mut out, "\"");
    push_str(&mut out, o.as_str());
    push_str(&mut out, "><b>");
    push_decimal(&mut out, count as u64);
    push_str(&mut out, "</b>");
    push_str(&mut out, name);
    push_str(&mut out, "</a>");
    out
}

/// The summary bar, statuses in report order.
pub open spec fn nav(s: Summary) -> Seq<char> {
    nav_link(Status::Changed, s.changed) + nav_link(Status::Added, s.added) + nav_link(
        Status::Removed,
        s.removed,
    ) + nav_link(Status::Mismatch, s.mismatch) + nav_link(Status::Error, s.error) + nav_link(
        Status::Unchanged,
        s.unchanged,
    )
}

/// The statuses in the order the report shows them.
pub open spec fn report_order() -> Seq<Status> {
    seq![
        Status::Changed,
        Status::Added,
        Status::Removed,
        Status::Mismatch,
        Status::Error,
        Status::Unchanged,
    ]
}

/// One summary link for each of `sts` in turn, each showing the count that
/// `s` has for its status.
pub open spec fn links_for(s: Summary, sts: Seq<Status>) -> Seq<char>
    decreases sts.len(),
{
    if sts.len() == 0 {
        Seq::empty()
    } else {
        links_for(s, sts.drop_last()) + nav_link(sts.last(), count_of(s, sts.last()))
    }
}

#[verifier::spinoff_prover]
proof fn lemma_nav_is_links(s: Summary)
    ensures
        nav(s) == links_for(s, report_order()),
{
    let o1 = seq![Status::Changed];
    let o2 = o1.push(Status::Added);
    let o3 = o2.push(Status::Removed);
    let o4 = o3.push(Status::Mismatch);
    let o5 = o4.push(Status::Error);
    let o6 = o5.push(Status::Unchanged);
    assert(o1.drop_last() =~= Seq::<Status>::empty());
    assert(o2.drop_last() =~= o1);
    assert(o3.drop_last() =~= o2);
    assert(o4.drop_last() =~= o3);
    assert(o5.drop_last() =~= o4);
    assert(o6.drop_last() =~= o5);
    assert(links_for(s, Seq::<Status>::empty()) =~= Seq::<char>::empty());
    assert(o1.last() == Status::Changed);
    assert(links_for(s, o1) == links_for(s, Seq::<Status>::empty()) + nav_link(Status::Changed, s.changed));
    assert(links_for(s, o1) =~= nav_link(Status::Changed, s.changed));
    assert(links_for(s, o2) == links_for(s, o1) + nav_link(Status::Added, s.added));
    assert(links_for(s, o3) == links_for(s, o2) + nav_link(Status::Removed, s.removed));
    assert(links_for(s, o4) == links_for(s, o3) + nav_link(Status::Mismatch, s.mismatch));
    assert(links_for(s, o5) == links_for(s, o4) + nav_link(Status::Error, s.error));
    assert(links_for(s, o6) == links_for(s, o5) + nav_link(Status::Unchanged, s.unchanged));
    assert(report_order() =~= o6);
}

#[verifier::spinoff_prover]
proof fn lemma_nav_link_tail(st: Status, c: u32)
    ensures
        ({
            let t = "><b>"@ + decimal(c as nat) + "</b>"@ + status_word(st) + "</a>"@;
            let l = nav_link(st, c);
            l.len() >= t.len() && l.subrange(l.len() - t.len(), l.len() as int) == t
        }),
{
    let t = "><b>"@ + decimal(c as nat) + "</b>"@ + status_word(st) + "</a>"@;
    let head = "<a href=\"#"@ + status_word(st) + "\" data-status=\""@ + status_word(st) + "\""@
        + off(st, c);
    assert(nav_link(st, c) =~= head + t);
    assert((head + t).subrange(head.len() as int, (head + t).len() as int) =~= t);
}

/// Law: the summary bar links each status, in report order, and the link of
/// each status shows that status's own count from the summary, in bold right
/// before the status's name.
#[verifier::spinoff_prover]
pub proof fn law_summary_links_show_own_counts(s: Summary)
    ensures
        nav(s) == links_for(s, report_order()),
        forall|st: Status, c: u32|
            #![trigger nav_link(st, c)]
            ({
                let t = "><b>"@ + decimal(c as nat) + "</b>"@ + status_word(st) + "</a>"@;
                let l = nav_link(st, c);
                l.len() >= t.len() && l.subrange(l.len() - t.len(), l.len() as int) == t
            }),
{
    lemma_nav_is_links(s);
    assert forall|st: Status, c: u32| #![trigger nav_link(st, c)] ({
        let t = "><b>"@ + decimal(c as nat) + "</b>"@ + status_word(st) + "</a>"@;
        let l = nav_link(st, c);
        l.len() >= t.len() && l.subrange(l.len() - t.len(), l.len() as int) == t
    }) by {
        lemma_nav_link_tail(st, c);
    }
}

fn nav_text(s: &Summary) -> (r: String)
    ensures
        r@ == nav(*s),
{
    let mut out = nav_link_text(Status::Changed, s.changed);
    let t = nav_link_text(Status::Added, s.added);
    push_str(&mut out, t.as_str());
    let t = nav_link_text(Status::Removed, s.removed);
    push_str(&mut out, t.as_str());
    let t = nav_link_text(Status::Mismatch, s.mismatch);
    push_str(&mut out, t.as_str());
    let t = nav_link_text(Status::Error, s.error);
    push_str(&mut out, t.as_str());
    let t = nav_link_text(Status::Unchanged, s.unchanged);
    push_str(&mut out, t.as_str());
    out
}

/// The sections, statuses in report order: changed, added, removed,
/// mismatch, error, unchanged.
pub open spec fn sections(es: Seq<Entry>) -> Seq<char> {
    section(es, Status::Changed) + section(es, Status::Added) + section(es, Status::Removed)
        + section(es, Status::Mismatch) + section(es, Status::Error) + section(
        es,
        Status::Unchanged,
    )
}

/// The section of each of `sts` in turn.
pub open spec fn sections_for(es: Seq<Entry>, sts: Seq<Status>) -> Seq<char>
    decreases sts.len(),
{
    if sts.len() == 0 {
        Seq::empty()
    } else {
        sections_for(es, sts.drop_last()) + section(es, sts.last())
    }
}

/// Law: the page shows the sections in report order: changed, added,
/// removed, mismatch, error, unchanged.
#[verifier::spinoff_prover]
#[verifier::rlimit(60)]
pub proof fn law_sections_in_report_order(es: Seq<Entry>)
    ensures
        sections(es) == sections_for(es, report_order()),
{
    let o1 = seq![Status::Changed];
    let o2 = o1.push(Status::Added);
    let o3 = o2.push(Status::Removed);
    let o4 = o3.push(Status::Mismatch);
    let o5 = o4.push(Status::Error);
    let o6 = o5.push(Status::Unchanged);
    assert(o1.drop_last() =~= Seq::<Status>::empty());
    assert(o2.drop_last() =~= o1);
    assert(o3.drop_last() =~= o2);
    assert(o4.drop_last() =~= o3);
    assert(o5.drop_last() =~= o4);
    assert(o6.drop_last() =~= o5);
    assert(sections_for(es, Seq::<Status>::empty()) =~= Seq::<char>::empty());
    assert(o1.last() == Status::Changed);
    assert(sections_for(es, o1) == sections_for(es, Seq::<Status>::empty()) + section(es, Status::Changed));
    assert(sections_for(es, o1) =~= section(es, Status::Changed));
    assert(sections_for(es, o2) == sections_for(es, o1) + section(es, Status::Added));
    assert(sections_for(es, o3) == sections_for(es, o2) + section(es, Status::Removed));
    assert(sections_for(es, o4) == sections_for(es, o3) + section(es, Status::Mismatch));
    assert(sections_for(es, o5) == sections_for(es, o4) + section(es, Status::Error));
    assert(sections_for(es, o6) == sections_for(es, o5) + section(es, Status::Unchanged));
    assert(report_order() =~= o6);
}

fn sections_text(es: &Vec<Entry>) -> (r: String)
    requires
        es.len() <= u64::MAX,
    ensures
        r@ == sections(es@),
{
    let mut out = section_text(es, Status::Changed);
    let t = section_text(es, Status::Added);
    push_str(&mut out, t.as_str());
    let t = section_text(es, Status::Removed);
    push_str(&mut out, t.as_str());
    let t = section_text(es, Status::Mismatch);
    push_str(&mut out, t.as_str());
    let t = section_text(es, Status::Error);
    push_str(&mut out, t.as_str());
    let t = section_text(es, Status::Unchanged);
    push_str(&mut out, t.as_str());
    out
}

/// The opening of the page, up to the style sheet.
pub open spec fn page_head() -> Seq<char> {
    "<!doctype html><html lang=\"en\"><head><meta charset=\"utf-8\"><meta name=\"viewport\" content=\"width=device-width, initial-scale=1\"><title>mitame report</title><style>"@
}

/// The whole report page.
pub open spec fn report_html(r: ResultFile) -> Seq<char> {
    page_head() + STYLE@ + "</style></head><body>"@
        + "<h1>mitame report</h1><div class=\"meta\">profile <code>"@ + escaped(r.profile@)
        + "</code> · "@ + decimal(r.results@.len()) + " screenshots</div>"@
        + "<nav class=\"summary\">"@ + nav(r.summary) + "</nav>"@ + sections(r.results@)
        + "<script>"@ + SCRIPT@ + "</script></body></html>"@
}

/// Renders the report page of a result.
pub fn render(result: &ResultFile) -> (r: String)
    requires
        result.results.len() <= u64::MAX,
    ensures
        r@ == report_html(*result),
{
    let n = nav_text(&result.summary);
    let secs = sections_text(&result.results);
    let mut out = owned(
        "<!doctype html><html lang=\"en\"><head><meta charset=\"utf-8\"><meta name=\"viewport\" content=\"width=device-width, initial-scale=1\"><title>mitame report</title><style>",
    );
    push_str(&mut out, STYLE);
    push_str(&mut out, "</style></head><body>");
    push_str(&mut out, "<h1>mitame report</h1><div class=\"meta\">profile <code>");
    push_escaped(&mut out, result.profile.as_str());
    push_str(&mut out, "</code> · ");
    push_decimal(&mut out, result.results.len() as u64);
    push_str(&mut out, " screenshots</div>");
    push_str(&mut out, "<nav class=\"summary\">");
    push_str(&mut out, n.as_str());
    push_str(&mut out, "</nav>");
    push_str(&mut out, secs.as_str());
    push_str(&mut out, "<script>");
    push_str(&mut out, SCRIPT);
    push_str(&mut out, "</script></body></html>");
    out
}

/// Law: escaped text holds none of `< > " '`, so it cannot open or close
/// a tag or an attribute.
pub proof fn law_escaped_text_is_inert(s: Seq<char>)
    ensures
        forall|i: int|
            0 <= i < escaped(s).len() ==> #[trigger] escaped(s)[i] != '<' && escaped(s)[i] != '>'
                && escaped(s)[i] != '"' && escaped(s)[i] != '\'',
    decreases s.len(),
{
    if s.len() > 0 {
        law_escaped_text_is_inert(s.drop_last());
        let c = s.last();
        let a = escaped(s.drop_last());
        let b = escape_char(c);
        reveal_strlit("&amp;");
        reveal_strlit("&lt;");
        reveal_strlit("&gt;");
        reveal_strlit("&quot;");
        reveal_strlit("&#39;");
        assert forall|i: int| 0 <= i < b.len() implies #[trigger] b[i] != '<' && b[i] != '>' && b[i]
            != '"' && b[i] != '\'' by {
        }
        assert forall|i: int| 0 <= i < escaped(s).len() implies #[trigger] escaped(s)[i] != '<'
            && escaped(s)[i] != '>' && escaped(s)[i] != '"' && escaped(s)[i] != '\'' by {
            if i < a.len() {
                assert(escaped(s)[i] == a[i]);
            } else {
                assert(escaped(s)[i] == b[i - a.len()]);
            }
        }
    }
}

/// Law: the sections divide the entries among them. A status's section
/// holds exactly the entries with that status, in their order, so it is
/// there exactly when some entry has the status; every entry is in the
/// section of its own status, and the six sections together hold each
/// entry once.
pub proof fn law_sections_divide_entries(es: Seq<Entry>)
    ensures
        forall|st: Status, x: Entry| #[trigger] with_status(es, st).contains(x) <==> es.contains(x)
            && x.status == st,
        forall|st: Status|
            #[trigger] with_status(es, st).len() > 0 <==> exists|i: int|
                0 <= i < es.len() && (#[trigger] es[i]).status == st,
        with_status(es, Status::Changed).len() + with_status(es, Status::Added).len() + with_status(
            es,
            Status::Removed,
        ).len() + with_status(es, Status::Mismatch).len() + with_status(es, Status::Error).len()
            + with_status(es, Status::Unchanged).len() == es.len(),
    decreases es.len(),
{
    if es.len() > 0 {
        let init = es.drop_last();
        let e = es.last();
        law_sections_divide_entries(init);
        assert forall|st: Status, x: Entry| #[trigger] with_status(es, st).contains(x) <==> es.contains(
            x,
        ) && x.status == st by {
            let w0 = with_status(init, st);
            if es.contains(x) && x.status == st {
                let i = choose|i: int| 0 <= i < es.len() && es[i] == x;
                if i < init.len() {
                    assert(init[i] == x);
                    assert(init.contains(x));
                    assert(w0.contains(x));
                    let j = choose|j: int| 0 <= j < w0.len() && w0[j] == x;
                    if e.status == st {
                        assert(with_status(es, st)[j] == x);
                    }
                } else {
                    assert(with_status(es, st).last() == x);
                }
            }
            if with_status(es, st).contains(x) {
                let j = choose|j: int| 0 <= j < with_status(es, st).len() && with_status(es, st)[j] == x;
                if j < w0.len() {
                    assert(w0[j] == x);
                    assert(w0.contains(x));
                    let i = choose|i: int| 0 <= i < init.len() && init[i] == x;
                    assert(es[i] == x);
                } else {
                    assert(x == e);
                    assert(es[es.len() - 1] == x);
                }
            }
        }
        assert forall|st: Status|
            #[trigger] with_status(es, st).len() > 0 <==> exists|i: int|
                0 <= i < es.len() && (#[trigger] es[i]).status == st by {
            if exists|i: int| 0 <= i < es.len() && (#[trigger] es[i]).status == st {
                let i = choose|i: int| 0 <= i < es.len() && (#[trigger] es[i]).status == st;
                if i < init.len() {
                    assert(init[i] == es[i]);
                }
            }
            if with_status(init, st).len() > 0 {
                let i = choose|i: int| 0 <= i < init.len() && (#[trigger] init[i]).status == st;
                assert(es[i] == init[i]);
            }
            if e.status == st {
                assert(es[es.len() - 1].status == st);
            }
        }
    }
}

/// One side's image copy of an entry: from the screenshot under the root
/// to `report/<side>/<id>.png`.
pub open spec fn side_copy(root: Seq<char>, side: Seq<char>, rel: Option<String>, id: Seq<char>) -> Seq<(Seq<char>, Seq<char>)> {
    match rel {
        Some(p) => seq![(path_join(root, p@), path_join(path_join(path_join(root, "report"@), side), id + ".png"@))],
        None => Seq::empty(),
    }
}

/// The copies one entry asks for: its baseline and current screenshots
/// (those it has) when the report shows its images, else none.
pub open spec fn entry_copies(root: Seq<char>, e: Entry) -> Seq<(Seq<char>, Seq<char>)> {
    if !shows_images(e) {
        Seq::empty()
    } else {
        side_copy(root, "baseline"@, e.baseline, e.id@) + side_copy(root, "current"@, e.current, e.id@)
    }
}

/// The images the report shows are copied into the report directory: for
/// every entry that is not unchanged or has differing pixels, its baseline
/// and current screenshots (those it has), in entry order.
pub open spec fn report_copies(root: Seq<char>, es: Seq<Entry>) -> Seq<(Seq<char>, Seq<char>)>
    decreases es.len(),
{
    if es.len() == 0 {
        Seq::empty()
    } else {
        report_copies(root, es.drop_last()) + entry_copies(root, es.last())
    }
}

/// What writing the report does: the image copies, in order, then the page
/// written to `report/index.html`.
pub struct ReportPlan {
    pub copies: Vec<FileOp>,
    pub index_path: String,
    pub html: String,
}

/// The `(from, to)` of a copy.
pub open spec fn copy_pair(op: FileOp) -> (Seq<char>, Seq<char>) {
    match op {
        FileOp::Copy(a, b) => (a@, b@),
        FileOp::CopySidecar(a, b) => (a@, b@),
        FileOp::Remove(a) => (a@, a@),
    }
}

/// The copies as `(from, to)` pairs.
pub open spec fn copy_pairs(ops: Seq<FileOp>) -> Seq<(Seq<char>, Seq<char>)> {
    ops.map_values(|op: FileOp| copy_pair(op))
}

fn side_copy_ops(root: &str, report: &str, side: &str, rel: &Option<String>, id: &str) -> (r: Vec<FileOp>)
    requires
        report@ == path_join(root@, "report"@),
    ensures
        copy_pairs(r@) == side_copy(root@, side@, *rel, id@),
        forall|j: int| 0 <= j < r.len() ==> (#[trigger] r@[j]) is Copy,
{
    let mut v: Vec<FileOp> = Vec::new();
    match rel {
        Some(p) => {
            let from = crate::layout::join_path(root, p.as_str());
            let dir = crate::layout::join_path(report, side);
            let mut name = owned(id);
            push_str(&mut name, ".png");
            let to = crate::layout::join_path(dir.as_str(), name.as_str());
            v.push(FileOp::Copy(from, to));
            assert(copy_pairs(v@) =~= side_copy(root@, side@, *rel, id@));
        },
        None => {
            assert(copy_pairs(v@) =~= side_copy(root@, side@, *rel, id@));
        },
    }
    v
}

fn push_entry_copies(copies: &mut Vec<FileOp>, root: &str, report: &str, e: &Entry)
    requires
        report@ == path_join(root@, "report"@),
        forall|j: int| 0 <= j < old(copies).len() ==> (#[trigger] old(copies)@[j]) is Copy,
    ensures
        forall|j: int| 0 <= j < final(copies).len() ==> (#[trigger] final(copies)@[j]) is Copy,
        copy_pairs(final(copies)@) == copy_pairs(old(copies)@) + entry_copies(root@, *e),
{
    if shows_images_exec(e) {
        let mut b = side_copy_ops(root, report, "baseline", &e.baseline, e.id.as_str());
        let mut c = side_copy_ops(root, report, "current", &e.current, e.id.as_str());
        let ghost before = copies@;
        let ghost bv = b@;
        let ghost cv = c@;
        copies.append(&mut b);
        copies.append(&mut c);
        assert(copies@ == before + bv + cv);
        assert(copy_pairs(copies@) =~= copy_pairs(before) + copy_pairs(bv) + copy_pairs(cv));
    } else {
        assert(copy_pairs(copies@) =~= copy_pairs(copies@) + entry_copies(root@, *e));
    }
}

/// Plans writing the report of `result` under `layout`'s report directory.
#[verifier::spinoff_prover]
#[verifier::rlimit(60)]
pub fn write_html(layout: &Layout, result: &ResultFile) -> (r: ReportPlan)
    requires
        result.results.len() <= u64::MAX,
    ensures
        forall|i: int| 0 <= i < r.copies.len() ==> (#[trigger] r.copies@[i]) is Copy,
        copy_pairs(r.copies@) == report_copies(layout.root@, result.results@),
        r.index_path@ == path_join(path_join(layout.root@, "report"@), "index.html"@),
        r.html@ == report_html(*result),
{
    let report = layout.report_dir();
    let mut copies: Vec<FileOp> = Vec::new();
    let mut i: usize = 0;
    let ghost es = result.results@;
    assert(es.take(0) =~= Seq::<Entry>::empty());
    assert(copy_pairs(copies@) =~= Seq::<(Seq<char>, Seq<char>)>::empty());
    while i < result.results.len()
        invariant
            0 <= i <= result.results.len(),
            es == result.results@,
            report@ == path_join(layout.root@, "report"@),
            forall|j: int| 0 <= j < copies.len() ==> (#[trigger] copies@[j]) is Copy,
            copy_pairs(copies@) == report_copies(layout.root@, es.take(i as int)),
        decreases result.results.len() - i,
    {
        let e = &result.results[i];
        proof {
            let t = es.take(i + 1);
            assert(t.drop_last() =~= es.take(i as int));
            assert(t.last() == es[i as int]);
        }
        push_entry_copies(&mut copies, layout.root.as_str(), report.as_str(), e);
        i = i + 1;
    }
    assert(es.take(result.results.len() as int) =~= es);
    let index_path = crate::layout::join_path(report.as_str(), "index.html");
    ReportPlan { copies, index_path, html: render(result) }
}

} // verus!
