//! What the command line decides and prints: exit codes, the settings that
//! the flags, the environment and the configuration resolve to, the lines
//! a comparison prints, and the command and environment of a capture.
use vstd::prelude::*;

use crate::report::{status_name, status_word};
use crate::result::{Entry, Status, Summary};
use crate::text::{
    decimal, lemma_str_lt_asymmetric, lemma_str_lt_irreflexive, lemma_str_lt_total,
    lemma_str_lt_transitive, owned, percent_text, push_decimal, push_decimal_wide, push_percent,
    push_str, str_lt,
    text_eq, text_lt, views,
};
use crate::json::{json_at, json_lookup, JsonItem, JsonItemView};
use crate::layout::{join_path, path_join};

verus! {

/// Every screenshot compared and nothing fails the run.
pub const EXIT_OK: u8 = 0;

/// The comparison found a difference that fails the run.
pub const EXIT_DIFF: u8 = 1;

/// An error: a screenshot could not be compared, the capture command
/// failed, or the command itself failed.
pub const EXIT_ERROR: u8 = 2;

/// The exit code of a comparison: an error outranks a failure.
pub fn exit_code(errored: bool, failed: bool) -> (r: u8)
    ensures
        r == (if errored {
            EXIT_ERROR
        } else if failed {
            EXIT_DIFF
        } else {
            EXIT_OK
        }),
{
    if errored {
        EXIT_ERROR
    } else if failed {
        EXIT_DIFF
    } else {
        EXIT_OK
    }
}

/// The exit code of a capture followed by a comparison: a capture command
/// that failed makes it an error whatever the comparison found.
pub fn capture_exit(command_succeeded: bool, compare_code: u8) -> (r: u8)
    ensures
        r == (if command_succeeded {
            compare_code
        } else {
            EXIT_ERROR
        }),
{
    if command_succeeded {
        compare_code
    } else {
        EXIT_ERROR
    }
}

/// The root directory: the flag, else the configuration's.
pub fn resolve_root(flag: Option<String>, configured: String) -> (r: String)
    ensures
        r@ == match flag {
            Some(f) => f@,
            None => configured@,
        },
{
    match flag {
        Some(f) => f,
        None => configured,
    }
}

/// The profile: the flag (or `MITAME_PROFILE`), else the configuration's,
/// else `default`.
pub fn resolve_profile(flag: Option<String>, configured: Option<String>) -> (r: String)
    ensures
        r@ == match flag {
            Some(f) => f@,
            None => match configured {
                Some(c) => c@,
                None => "default"@,
            },
        },
{
    match flag {
        Some(f) => f,
        None => match configured {
            Some(c) => c,
            None => owned("default"),
        },
    }
}

/// The differing pixels an entry lists by, zero when it has none.
pub open spec fn listed_pixels(e: Entry) -> u64 {
    match e.diff_pixels {
        Some(p) => p,
        None => 0,
    }
}

/// Entry `i` is listed before entry `j`: more differing pixels first, then
/// by id, then in result order.
pub open spec fn listed_before(es: Seq<Entry>, i: int, j: int) -> bool {
    let a = listed_pixels(es[i]);
    let b = listed_pixels(es[j]);
    a > b || (a == b && (str_lt(es[i].id@, es[j].id@) || (es[i].id@ == es[j].id@ && i < j)))
}

proof fn lemma_listed_total(es: Seq<Entry>, i: int, j: int)
    requires
        i != j,
    ensures
        listed_before(es, i, j) || listed_before(es, j, i),
        !(listed_before(es, i, j) && listed_before(es, j, i)),
{
    lemma_str_lt_total(es[i].id@, es[j].id@);
    lemma_str_lt_asymmetric(es[i].id@, es[j].id@);
    lemma_str_lt_irreflexive(es[i].id@);
}

proof fn lemma_listed_transitive(es: Seq<Entry>, i: int, j: int, k: int)
    requires
        listed_before(es, i, j),
        listed_before(es, j, k),
    ensures
        listed_before(es, i, k),
{
    if str_lt(es[i].id@, es[j].id@) && str_lt(es[j].id@, es[k].id@) {
        lemma_str_lt_transitive(es[i].id@, es[j].id@, es[k].id@);
    }
}

/// The entries a comparison lists: those that are not unchanged.
pub open spec fn is_listed(es: Seq<Entry>, i: int) -> bool {
    0 <= i < es.len() && es[i].status != Status::Unchanged
}

/// Law: the listing puts entries with more differing pixels first (an
/// entry without a pixel count counts none), and among equal counts the
/// smaller id first, then the earlier entry.
pub proof fn law_larger_differences_listed_first(es: Seq<Entry>, i: int, j: int)
    requires
        0 <= i < es.len(),
        0 <= j < es.len(),
        i != j,
    ensures
        ({
            let p = match es[i].diff_pixels { Some(n) => n as int, None => 0 };
            let q = match es[j].diff_pixels { Some(n) => n as int, None => 0 };
            &&& p > q ==> listed_before(es, i, j) && !listed_before(es, j, i)
            &&& p == q && str_lt(es[i].id@, es[j].id@) ==> listed_before(es, i, j)
            &&& p == q && es[i].id@ == es[j].id@ ==> (listed_before(es, i, j) <==> i < j)
        }),
{
    lemma_str_lt_irreflexive(es[i].id@);
}

/// Law: an entry is listed exactly when its status is not unchanged:
/// changed, added, removed, mismatched and errored entries all are.
pub proof fn law_listed_unless_unchanged(es: Seq<Entry>, i: int)
    requires
        0 <= i < es.len(),
    ensures
        is_listed(es, i) <==> es[i].status != Status::Unchanged,
        es[i].status == Status::Changed || es[i].status == Status::Added || es[i].status
            == Status::Removed || es[i].status == Status::Mismatch || es[i].status == Status::Error
            ==> is_listed(es, i),
{
}

fn before(es: &Vec<Entry>, i: usize, j: usize) -> (r: bool)
    requires
        i < es.len(),
        j < es.len(),
    ensures
        r == listed_before(es@, i as int, j as int),
{
    let a = match es[i].diff_pixels {
        Some(p) => p,
        None => 0,
    };
    let b = match es[j].diff_pixels {
        Some(p) => p,
        None => 0,
    };
    if a != b {
        return a > b;
    }
    if text_lt(es[i].id.as_str(), es[j].id.as_str()) {
        return true;
    }
    text_eq(es[i].id.as_str(), es[j].id.as_str()) && i < j
}

/// The positions of the entries that are not unchanged, in listing order:
/// more differing pixels first, then by id, then in result order.
pub fn listing_order(es: &Vec<Entry>) -> (r: Vec<usize>)
    ensures
        forall|k: int| 0 <= k < r.len() ==> is_listed(es@, #[trigger] r@[k] as int),
        forall|i: int| is_listed(es@, i) ==> r@.contains(i as usize),
        forall|a: int, b: int|
            0 <= a < b < r.len() ==> listed_before(es@, #[trigger] r@[a] as int, #[trigger] r@[b] as int),
        forall|k: int|
            0 <= k < r.len() ==> #[trigger] r@[k] < es.len() && es@[r@[k] as int].status
                != Status::Unchanged,
        forall|i: int|
            0 <= i < es.len() && (#[trigger] es@[i]).status != Status::Unchanged ==> r@.contains(
                i as usize,
            ),
{
    let mut out: Vec<usize> = Vec::new();
    let mut i: usize = 0;
    while i < es.len()
        invariant
            0 <= i <= es.len(),
            forall|k: int| 0 <= k < out.len() ==> is_listed(es@, #[trigger] out@[k] as int),
            forall|k: int| 0 <= k < out.len() ==> #[trigger] out@[k] < i,
            forall|n: int| 0 <= n < i && is_listed(es@, n) ==> out@.contains(n as usize),
            forall|a: int, b: int|
                0 <= a < b < out.len() ==> listed_before(es@, #[trigger] out@[a] as int, #[trigger] out@[b] as int),
        decreases es.len() - i,
    {
        if es[i].status != Status::Unchanged {
            let mut k: usize = 0;
            while k < out.len() && !before(es, i, out[k])
                invariant
                    0 <= k <= out.len(),
                    i < es.len(),
                    forall|m: int| 0 <= m < out.len() ==> #[trigger] out@[m] < es.len(),
                    forall|m: int| 0 <= m < k ==> !listed_before(es@, i as int, #[trigger] out@[m] as int),
                decreases out.len() - k,
            {
                k = k + 1;
            }
            let ghost old_out = out@;
            out.insert(k, i);
            proof {
                assert forall|m: int| 0 <= m < k implies listed_before(es@, #[trigger] old_out[m] as int, i as int) by {
                    lemma_listed_total(es@, i as int, old_out[m] as int);
                }
                assert forall|a: int, b: int|
                    0 <= a < b < out.len() implies listed_before(es@, #[trigger] out@[a] as int, #[trigger] out@[b] as int) by {
                    if b < k {
                        assert(out@[a] == old_out[a] && out@[b] == old_out[b]);
                    } else if b == k {
                        assert(out@[a] == old_out[a]);
                    } else if a == k {
                        assert(out@[b] == old_out[b - 1]);
                        if b - 1 > k {
                            assert(listed_before(es@, old_out[k as int] as int, old_out[b - 1] as int));
                            lemma_listed_transitive(es@, i as int, old_out[k as int] as int, old_out[b - 1] as int);
                        }
                    } else if a < k {
                        assert(out@[a] == old_out[a] && out@[b] == old_out[b - 1]);
                    } else {
                        assert(out@[a] == old_out[a - 1] && out@[b] == old_out[b - 1]);
                    }
                }
                assert forall|n: int| 0 <= n < i + 1 && is_listed(es@, n) implies out@.contains(n as usize) by {
                    if n == i {
                        assert(out@[k as int] == i);
                    } else {
                        assert(old_out.contains(n as usize));
                        let m = choose|m: int| 0 <= m < old_out.len() && old_out[m] == n as usize;
                        if m < k {
                            assert(out@[m] == old_out[m]);
                        } else {
                            assert(out@[m + 1] == old_out[m]);
                        }
                    }
                }
                assert forall|m: int| 0 <= m < out.len() implies is_listed(es@, #[trigger] out@[m] as int) && out@[m] < i + 1 by {
                    if m < k {
                        assert(out@[m] == old_out[m]);
                    } else if m > k {
                        assert(out@[m] == old_out[m - 1]);
                    }
                }
            }
        }
        i = i + 1;
    }
    assert forall|n: int| 0 <= n < es.len() && (#[trigger] es@[n]).status != Status::Unchanged implies out@.contains(
        n as usize,
    ) by {
        assert(is_listed(es@, n));
    }
    assert forall|k: int| 0 <= k < out.len() implies #[trigger] out@[k] < es.len() && es@[out@[k] as int].status
        != Status::Unchanged by {
        assert(is_listed(es@, out@[k] as int));
    }
    out
}

/// The line a comparison prints first: the profile and the count of each
/// status.
pub open spec fn summary_text(profile: Seq<char>, s: Summary) -> Seq<char> {
    "profile "@ + profile + ": unchanged "@ + decimal(s.unchanged as nat) + ", changed "@ + decimal(
        s.changed as nat,
    ) + ", added "@ + decimal(s.added as nat) + ", removed "@ + decimal(s.removed as nat)
        + ", mismatch "@ + decimal(s.mismatch as nat) + ", error "@ + decimal(s.error as nat)
}

/// The summary line of a comparison.
pub fn summary_line(profile: &str, s: &Summary) -> (r: String)
    ensures
        r@ == summary_text(profile@, *s),
{
    let mut out = owned("profile ");
    push_str(&mut out, profile);
    push_str(&mut out, ": unchanged ");
    push_decimal(&mut out, s.unchanged as u64);
    push_str(&mut out, ", changed ");
    push_decimal(&mut out, s.changed as u64);
    push_str(&mut out, ", added ");
    push_decimal(&mut out, s.added as u64);
    push_str(&mut out, ", removed ");
    push_decimal(&mut out, s.removed as u64);
    push_str(&mut out, ", mismatch ");
    push_decimal(&mut out, s.mismatch as u64);
    push_str(&mut out, ", error ");
    push_decimal(&mut out, s.error as u64);
    out
}

/// `s` followed by spaces up to `width` characters.
pub open spec fn pad_right(s: Seq<char>, width: nat) -> Seq<char> {
    if s.len() >= width {
        s
    } else {
        s + Seq::new((width - s.len()) as nat, |i: int| ' ')
    }
}

/// What follows an entry's id in its line: its message, else its differing
/// pixels and their percentage with three decimals, else nothing.
pub open spec fn entry_detail(e: Entry) -> Seq<char> {
    match e.message {
        Some(m) => m@,
        None => match (e.diff_pixels, e.diff_ratio) {
            (Some(px), Some(r)) => decimal(px as nat) + " px ("@ + percent_text(r.num, r.den, 3)
                + "%)"@,
            _ => Seq::empty(),
        },
    }
}

/// The line a comparison prints for a listed entry: its status padded to
/// nine characters, its id and its detail.
pub open spec fn entry_line(e: Entry) -> Seq<char> {
    "  "@ + pad_right(status_word(e.status), 9) + " "@ + e.id@ + " "@ + entry_detail(e)
}

/// The line printed for `e`.
pub fn listing_line(e: &Entry) -> (r: String)
    ensures
        r@ == entry_line(*e),
{
    let name = status_name(e.status);
    let mut out = owned("  ");
    push_str(&mut out, name);
    let mut n: usize = name.unicode_len();
    let ghost start = out@;
    while n < 9
        invariant
            name@ == status_word(e.status),
            n == name@.len() || (name@.len() < n <= 9),
            out@ == start + Seq::new((n - name@.len()) as nat, |i: int| ' '),
        decreases 9 - n,
    {
        crate::text::push_char(&mut out, ' ');
        assert(out@ =~= start + Seq::new((n + 1 - name@.len()) as nat, |i: int| ' '));
        n = n + 1;
    }
    proof {
        reveal_strlit("changed");
        reveal_strlit("added");
        reveal_strlit("removed");
        reveal_strlit("mismatch");
        reveal_strlit("error");
        reveal_strlit("unchanged");
        if name@.len() >= 9 {
            assert(out@ =~= start);
        }
        assert(out@ =~= "  "@ + pad_right(status_word(e.status), 9));
    }
    push_str(&mut out, " ");
    push_str(&mut out, e.id.as_str());
    push_str(&mut out, " ");
    match &e.message {
        Some(m) => push_str(&mut out, m.as_str()),
        None => match (e.diff_pixels, e.diff_ratio) {
            (Some(px), Some(r)) => {
                push_decimal(&mut out, px);
                push_str(&mut out, " px (");
                push_percent(&mut out, r.num, r.den, 3);
                push_str(&mut out, "%)");
            },
            _ => {},
        },
    }
    out
}

/// Where fvm keeps its SDKs: `FVM_CACHE_PATH`, else `fvm` under the home
/// directory, else nowhere.
pub fn fvm_cache_dir(fvm_cache_path: Option<String>, home: Option<String>) -> (r: Option<String>)
    ensures
        opt_text(r) == match fvm_cache_path {
            Some(c) => Some(c@),
            None => match home {
                Some(h) => Some(path_join(h@, "fvm"@)),
                None => None,
            },
        },
{
    match fvm_cache_path {
        Some(c) => Some(c),
        None => match home {
            Some(h) => Some(join_path(h.as_str(), "fvm")),
            None => None,
        },
    }
}

/// The text of an optional string.
pub open spec fn opt_text(o: Option<String>) -> Option<Seq<char>> {
    match o {
        Some(s) => Some(s@),
        None => None,
    }
}

/// The Flutter version that a project's `.fvmrc` pins: its `flutter`
/// string, when the text is JSON and has one.
pub open spec fn fvmrc_pin(text: Seq<char>) -> Option<Seq<char>> {
    match json_at(text, "/flutter"@) {
        Ok(JsonItemView::Text(v)) => Some(v),
        _ => None,
    }
}

/// Reads the pinned Flutter version from the text of `.fvmrc`.
pub fn fvmrc_version(text: &str) -> (r: Option<String>)
    ensures
        opt_text(r) == fvmrc_pin(text@),
{
    match json_lookup(text, "/flutter") {
        Ok(JsonItem::Text(v)) => Some(v),
        _ => None,
    }
}

/// `<cache>/versions/<version>/bin/flutter`: the SDK that a project's
/// `.fvmrc` pins.
pub fn fvm_flutter(cache: &str, version: &str) -> (r: String)
    ensures
        r@ == path_join(
            path_join(path_join(path_join(cache@, "versions"@), version@), "bin"@),
            "flutter"@,
        ),
{
    let a = join_path(cache, "versions");
    let b = join_path(a.as_str(), version);
    let c = join_path(b.as_str(), "bin");
    join_path(c.as_str(), "flutter")
}

/// `<project>/.fvm/flutter_sdk/bin/flutter`: the SDK that fvm links into a
/// project.
pub fn fvm_link_flutter(project: &str) -> (r: String)
    ensures
        r@ == path_join(
            path_join(path_join(path_join(project@, ".fvm"@), "flutter_sdk"@), "bin"@),
            "flutter"@,
        ),
{
    let a = join_path(project, ".fvm");
    let b = join_path(a.as_str(), "flutter_sdk");
    let c = join_path(b.as_str(), "bin");
    join_path(c.as_str(), "flutter")
}

/// The Flutter executable a test run uses: the flag (or `MITAME_FLUTTER`),
/// else the SDK that `.fvmrc` pins when it is installed, else the project's
/// fvm link when it exists, else `flutter` from the path.
pub fn resolve_flutter(
    explicit: Option<String>,
    pinned: Option<String>,
    pinned_exists: bool,
    link: String,
    link_exists: bool,
) -> (r: String)
    ensures
        r@ == match explicit {
            Some(e) => e@,
            None => match pinned {
                Some(p) if pinned_exists => p@,
                _ => if link_exists {
                    link@
                } else {
                    "flutter"@
                },
            },
        },
{
    if let Some(e) = explicit {
        return e;
    }
    if let Some(p) = pinned {
        if pinned_exists {
            return p;
        }
    }
    if link_exists {
        link
    } else {
        owned("flutter")
    }
}

/// The command a test run starts: Flutter's `test` with the extra
/// arguments.
pub fn test_command(flutter: String, args: Vec<String>) -> (r: Vec<String>)
    ensures
        views(r@) == seq![flutter@, "test"@] + views(args@),
{
    let mut r: Vec<String> = Vec::new();
    r.push(flutter);
    r.push(owned("test"));
    let ghost head = r@;
    let mut rest = args;
    let ghost tail = rest@;
    r.append(&mut rest);
    assert(views(r@) =~= seq![head[0]@, head[1]@] + views(tail));
    r
}

/// A capture run's id: the milliseconds since the epoch and the process
/// id, joined by `-`.
pub fn run_id(millis: u128, pid: u32) -> (r: String)
    ensures
        r@ == decimal(millis as nat) + "-"@ + decimal(pid as nat),
{
    let mut out = String::new();
    push_decimal_wide(&mut out, millis);
    push_str(&mut out, "-");
    push_decimal(&mut out, pid as u64);
    out
}

/// The variables a capture sets for the adapters: where to write, the
/// profile and the run id, and with Ahem fonts configured `MITAME_FONTS`.
pub open spec fn capture_vars(output_dir: Seq<char>, profile: Seq<char>, run_id: Seq<char>, fonts: Seq<char>) -> Seq<(Seq<char>, Seq<char>)> {
    let base = seq![
        ("MITAME_OUTPUT_DIR"@, output_dir),
        ("MITAME_PROFILE"@, profile),
        ("MITAME_RUN_ID"@, run_id),
    ];
    if fonts == "ahem"@ {
        base.push(("MITAME_FONTS"@, "ahem"@))
    } else {
        base
    }
}

/// Each variable followed by the same variable under the `TEST_RUNNER_`
/// prefix, which test runners pass through to the tests.
pub open spec fn with_runner_copies(vars: Seq<(Seq<char>, Seq<char>)>) -> Seq<(Seq<char>, Seq<char>)>
    decreases vars.len(),
{
    if vars.len() == 0 {
        Seq::empty()
    } else {
        let (k, v) = vars.last();
        with_runner_copies(vars.drop_last()) + seq![(k, v), ("TEST_RUNNER_"@ + k, v)]
    }
}

/// The text of name and value pairs.
pub open spec fn pair_views(v: Seq<(String, String)>) -> Seq<(Seq<char>, Seq<char>)> {
    v.map_values(|p: (String, String)| (p.0@, p.1@))
}

fn push_var(env: &mut Vec<(String, String)>, key: &str, value: &str)
    ensures
        pair_views(final(env)@) == pair_views(old(env)@) + seq![
            (key@, value@),
            ("TEST_RUNNER_"@ + key@, value@),
        ],
{
    let ghost before = pair_views(env@);
    env.push((owned(key), owned(value)));
    let mut prefixed = owned("TEST_RUNNER_");
    push_str(&mut prefixed, key);
    env.push((prefixed, owned(value)));
    assert(pair_views(env@) =~= before + seq![(key@, value@), ("TEST_RUNNER_"@ + key@, value@)]);
}

/// The environment a capture command runs with.
pub fn capture_env(output_dir: &str, profile: &str, run_id: &str, fonts: &str) -> (r: Vec<(String, String)>)
    ensures
        pair_views(r@) == with_runner_copies(capture_vars(output_dir@, profile@, run_id@, fonts@)),
{
    let mut env: Vec<(String, String)> = Vec::new();
    let ghost vars = capture_vars(output_dir@, profile@, run_id@, fonts@);
    assert(pair_views(env@) =~= Seq::<(Seq<char>, Seq<char>)>::empty());
    push_var(&mut env, "MITAME_OUTPUT_DIR", output_dir);
    push_var(&mut env, "MITAME_PROFILE", profile);
    push_var(&mut env, "MITAME_RUN_ID", run_id);
    let ahem = text_eq(fonts, "ahem");
    if ahem {
        push_var(&mut env, "MITAME_FONTS", "ahem");
    }
    proof {
        let v3 = seq![
            ("MITAME_OUTPUT_DIR"@, output_dir@),
            ("MITAME_PROFILE"@, profile@),
            ("MITAME_RUN_ID"@, run_id@),
        ];
        assert(v3.drop_last().drop_last().drop_last() =~= Seq::<(Seq<char>, Seq<char>)>::empty());
        assert(v3.drop_last().drop_last() =~= seq![v3[0]]);
        assert(v3.drop_last() =~= seq![v3[0], v3[1]]);
        reveal_with_fuel(with_runner_copies, 5);
        if ahem {
            assert(vars.drop_last() =~= v3);
        } else {
            assert(vars =~= v3);
        }
        assert(pair_views(env@) =~= with_runner_copies(vars));
    }
    env
}

} // verus!
