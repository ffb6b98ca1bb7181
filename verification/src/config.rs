//! Configuration: paths, capture settings, the failure policy, and the
//! per-identity rules that override comparison settings. The comparison
//! settings carry tolerances of a numeric type `F` chosen by the caller;
//! this module only selects among them.
use vstd::prelude::*;

use crate::text::{chars_of, chars_eq, owned, push_str};

verus! {

/// How a status other than changed or unchanged affects the run.
#[derive(Debug, Clone, Copy, PartialEq, Eq, Structural)]
pub enum Severity {
    Pass,
    Warn,
    Fail,
}

/// Where the screenshots live.
#[derive(Debug, Clone)]
pub struct Paths {
    pub root: String,
}

impl Default for Paths {
    fn default() -> (r: Paths)
        ensures
            r.root@ == ".mitame"@,
    {
        Paths { root: owned(".mitame") }
    }
}

/// How screenshots are captured.
#[derive(Debug, Clone)]
pub struct CaptureConfig {
    pub command: Vec<String>,
    pub fonts: String,
}

impl Default for CaptureConfig {
    fn default() -> (r: CaptureConfig)
        ensures
            r.command@.len() == 0,
            r.fonts@ == "real"@,
    {
        CaptureConfig { command: Vec::new(), fonts: owned("real") }
    }
}

/// Which statuses fail the run.
#[derive(Debug, Clone, Copy, PartialEq, Eq, Structural)]
pub struct Policy {
    pub added: Severity,
    pub removed: Severity,
    pub mismatch: Severity,
}

impl Default for Policy {
    fn default() -> (r: Policy)
        ensures
            r == (Policy { added: Severity::Warn, removed: Severity::Warn, mismatch: Severity::Fail }),
    {
        Policy { added: Severity::Warn, removed: Severity::Warn, mismatch: Severity::Fail }
    }
}

/// The comparison settings that apply to one identity.
#[derive(Debug, Clone, Copy)]
pub struct EffectiveCompare<F> {
    pub threshold: F,
    pub max_diff_pixels: u64,
    pub pixel_tolerance: F,
    pub anti_aliasing: bool,
}

/// A per-identity override: identities that match `pattern` take every
/// setting the rule names.
#[derive(Debug, Clone)]
pub struct Rule<F> {
    pub pattern: String,
    pub threshold: Option<F>,
    pub max_diff_pixels: Option<u64>,
    pub pixel_tolerance: Option<F>,
    pub anti_aliasing: Option<bool>,
}

/// The value the last matching rule that sets it gives, else `base`.
pub open spec fn last_set<T>(values: Seq<Option<T>>, matched: Seq<bool>, base: T) -> T
    decreases values.len(),
{
    if values.len() == 0 || matched.len() < values.len() {
        base
    } else if matched[values.len() - 1] && values.last() is Some {
        values.last()->Some_0
    } else {
        last_set(values.drop_last(), matched.take(values.len() - 1), base)
    }
}

pub open spec fn thresholds<F>(rules: Seq<Rule<F>>) -> Seq<Option<F>> {
    rules.map_values(|r: Rule<F>| r.threshold)
}

pub open spec fn max_pixels<F>(rules: Seq<Rule<F>>) -> Seq<Option<u64>> {
    rules.map_values(|r: Rule<F>| r.max_diff_pixels)
}

pub open spec fn tolerances<F>(rules: Seq<Rule<F>>) -> Seq<Option<F>> {
    rules.map_values(|r: Rule<F>| r.pixel_tolerance)
}

pub open spec fn anti_aliasings<F>(rules: Seq<Rule<F>>) -> Seq<Option<bool>> {
    rules.map_values(|r: Rule<F>| r.anti_aliasing)
}

/// The settings after applying, in order, every rule whose entry in
/// `matched` is true: each setting comes from the last matching rule that
/// names it, and from `base` when none does.
pub open spec fn apply_rules<F>(base: EffectiveCompare<F>, rules: Seq<Rule<F>>, matched: Seq<bool>) -> EffectiveCompare<F> {
    EffectiveCompare {
        threshold: last_set(thresholds(rules), matched, base.threshold),
        max_diff_pixels: last_set(max_pixels(rules), matched, base.max_diff_pixels),
        pixel_tolerance: last_set(tolerances(rules), matched, base.pixel_tolerance),
        anti_aliasing: last_set(anti_aliasings(rules), matched, base.anti_aliasing),
    }
}

proof fn lemma_last_set_step<T>(values: Seq<Option<T>>, matched: Seq<bool>, base: T, i: int)
    requires
        0 <= i < values.len(),
        matched.len() == values.len(),
    ensures
        last_set(values.take(i + 1), matched, base) == if matched[i] && values[i] is Some {
            values[i]->Some_0
        } else {
            last_set(values.take(i), matched, base)
        },
{
    let t = values.take(i + 1);
    assert(t.drop_last() =~= values.take(i));
    assert(t.last() == values[i]);
    lemma_last_set_matched_prefix(values.take(i), matched, matched.take(i), base);
}

proof fn lemma_last_set_matched_prefix<T>(values: Seq<Option<T>>, m1: Seq<bool>, m2: Seq<bool>, base: T)
    requires
        values.len() <= m1.len(),
        values.len() <= m2.len(),
        forall|j: int| 0 <= j < values.len() ==> m1[j] == m2[j],
    ensures
        last_set(values, m1, base) == last_set(values, m2, base),
    decreases values.len(),
{
    if values.len() > 0 {
        let n = values.len() - 1;
        lemma_last_set_matched_prefix(values.drop_last(), m1.take(n), m2.take(n), base);
        assert(m1[n] == m2[n]);
    }
}

/// The settings for an identity whose rule matches are `matched`: rules
/// apply in order and the last matching rule that names a setting wins.
pub fn apply_matched_rules<F: Copy>(
    base: EffectiveCompare<F>,
    rules: &Vec<Rule<F>>,
    matched: &Vec<bool>,
) -> (r: EffectiveCompare<F>)
    requires
        matched.len() == rules.len(),
    ensures
        r == apply_rules(base, rules@, matched@),
{
    let mut out = base;
    let mut i: usize = 0;
    let ghost rs = rules@;
    while i < rules.len()
        invariant
            0 <= i <= rules.len(),
            matched.len() == rules.len(),
            rs == rules@,
            out == apply_rules(base, rs.take(i as int), matched@),
        decreases rules.len() - i,
    {
        proof {
            assert(thresholds(rs.take(i + 1)) =~= thresholds(rs).take(i + 1));
            assert(thresholds(rs.take(i as int)) =~= thresholds(rs).take(i as int));
            assert(max_pixels(rs.take(i + 1)) =~= max_pixels(rs).take(i + 1));
            assert(max_pixels(rs.take(i as int)) =~= max_pixels(rs).take(i as int));
            assert(tolerances(rs.take(i + 1)) =~= tolerances(rs).take(i + 1));
            assert(tolerances(rs.take(i as int)) =~= tolerances(rs).take(i as int));
            assert(anti_aliasings(rs.take(i + 1)) =~= anti_aliasings(rs).take(i + 1));
            assert(anti_aliasings(rs.take(i as int)) =~= anti_aliasings(rs).take(i as int));
            lemma_last_set_step(thresholds(rs), matched@, base.threshold, i as int);
            lemma_last_set_step(max_pixels(rs), matched@, base.max_diff_pixels, i as int);
            lemma_last_set_step(tolerances(rs), matched@, base.pixel_tolerance, i as int);
            lemma_last_set_step(anti_aliasings(rs), matched@, base.anti_aliasing, i as int);
        }
        if matched[i] {
            let rule = &rules[i];
            match rule.threshold {
                Some(t) => {
                    out.threshold = t;
                },
                None => {},
            }
            match rule.max_diff_pixels {
                Some(m) => {
                    out.max_diff_pixels = m;
                },
                None => {},
            }
            match rule.pixel_tolerance {
                Some(p) => {
                    out.pixel_tolerance = p;
                },
                None => {},
            }
            match rule.anti_aliasing {
                Some(a) => {
                    out.anti_aliasing = a;
                },
                None => {},
            }
        }
        i = i + 1;
    }
    assert(rs.take(rules.len() as int) =~= rs);
    out
}

/// Law: rules apply in order and the last matching rule wins: a setting
/// comes from the last rule that matches and names it, and a rule that does
/// not match changes nothing.
pub proof fn law_last_matching_rule_wins<F>(
    base: EffectiveCompare<F>,
    rules: Seq<Rule<F>>,
    matched: Seq<bool>,
    i: int,
)
    requires
        matched.len() == rules.len(),
        0 <= i < rules.len(),
        matched[i],
        rules[i].threshold is Some,
        forall|j: int| i < j < rules.len() ==> !matched[j] || (#[trigger] rules[j]).threshold is None,
    ensures
        apply_rules(base, rules, matched).threshold == rules[i].threshold->Some_0,
    decreases rules.len(),
{
    let n = rules.len() - 1;
    let ts = thresholds(rules);
    if i == n {
        assert(ts.last() == rules[i].threshold);
    } else {
        assert(ts.last() == rules[n].threshold);
        let init = rules.drop_last();
        assert(ts.drop_last() =~= thresholds(init));
        lemma_last_set_matched_prefix(thresholds(init), matched.take(n), matched.take(n), base.threshold);
        assert forall|j: int| i < j < init.len() implies !matched.take(n)[j] || (
        #[trigger] init[j]).threshold is None by {
            assert(init[j] == rules[j]);
        }
        law_last_matching_rule_wins(base, init, matched.take(n), i);
    }
}

/// The value of the last matching position that sets one is that value.
proof fn lemma_last_set_picks<T>(values: Seq<Option<T>>, matched: Seq<bool>, base: T, i: int)
    requires
        matched.len() == values.len(),
        0 <= i < values.len(),
        matched[i],
        values[i] is Some,
        forall|j: int| i < j < values.len() ==> !matched[j] || (#[trigger] values[j]) is None,
    ensures
        last_set(values, matched, base) == values[i]->Some_0,
    decreases values.len(),
{
    let n = values.len() - 1;
    if i < n {
        let vs = values.drop_last();
        let ms = matched.take(n);
        assert(!matched[n] || values[n] is None);
        assert forall|j: int| i < j < vs.len() implies !ms[j] || (#[trigger] vs[j]) is None by {
            assert(vs[j] == values[j] && ms[j] == matched[j]);
        }
        assert(vs[i] == values[i] && ms[i] == matched[i]);
        lemma_last_set_picks(vs, ms, base, i);
    }
}

/// Where no matching position sets a value, the base stays.
proof fn lemma_last_set_unset<T>(values: Seq<Option<T>>, matched: Seq<bool>, base: T)
    requires
        matched.len() == values.len(),
        forall|j: int| 0 <= j < values.len() ==> !matched[j] || (#[trigger] values[j]) is None,
    ensures
        last_set(values, matched, base) == base,
    decreases values.len(),
{
    if values.len() > 0 {
        let n = values.len() - 1;
        let vs = values.drop_last();
        let ms = matched.take(n);
        assert(!matched[n] || values[n] is None);
        assert forall|j: int| 0 <= j < vs.len() implies !ms[j] || (#[trigger] vs[j]) is None by {
            assert(vs[j] == values[j] && ms[j] == matched[j]);
        }
        lemma_last_set_unset(vs, ms, base);
    }
}

/// Law: every setting (threshold, maximum differing pixels, pixel
/// tolerance and anti-aliasing detection) comes from the last matching rule
/// that names it: when rule `i` matches and names a setting and no later
/// matching rule names it, the effective value is rule `i`'s, whatever the
/// base and the earlier rules say.
pub proof fn law_each_setting_from_last_matching_rule<F>(
    base: EffectiveCompare<F>,
    rules: Seq<Rule<F>>,
    matched: Seq<bool>,
    i: int,
)
    requires
        matched.len() == rules.len(),
        0 <= i < rules.len(),
        matched[i],
    ensures
        rules[i].threshold is Some && (forall|j: int|
            i < j < rules.len() ==> !matched[j] || (#[trigger] rules[j]).threshold is None) ==> apply_rules(
            base,
            rules,
            matched,
        ).threshold == rules[i].threshold->Some_0,
        rules[i].max_diff_pixels is Some && (forall|j: int|
            i < j < rules.len() ==> !matched[j] || (#[trigger] rules[j]).max_diff_pixels is None)
            ==> apply_rules(base, rules, matched).max_diff_pixels == rules[i].max_diff_pixels->Some_0,
        rules[i].pixel_tolerance is Some && (forall|j: int|
            i < j < rules.len() ==> !matched[j] || (#[trigger] rules[j]).pixel_tolerance is None)
            ==> apply_rules(base, rules, matched).pixel_tolerance == rules[i].pixel_tolerance->Some_0,
        rules[i].anti_aliasing is Some && (forall|j: int|
            i < j < rules.len() ==> !matched[j] || (#[trigger] rules[j]).anti_aliasing is None)
            ==> apply_rules(base, rules, matched).anti_aliasing == rules[i].anti_aliasing->Some_0,
{
    if rules[i].threshold is Some && (forall|j: int|
        i < j < rules.len() ==> !matched[j] || (#[trigger] rules[j]).threshold is None) {
        let vs = thresholds(rules);
        assert forall|j: int| i < j < vs.len() implies !matched[j] || (#[trigger] vs[j]) is None by {
            assert(vs[j] == rules[j].threshold);
        }
        lemma_last_set_picks(vs, matched, base.threshold, i);
    }
    if rules[i].max_diff_pixels is Some && (forall|j: int|
        i < j < rules.len() ==> !matched[j] || (#[trigger] rules[j]).max_diff_pixels is None) {
        let vs = max_pixels(rules);
        assert forall|j: int| i < j < vs.len() implies !matched[j] || (#[trigger] vs[j]) is None by {
            assert(vs[j] == rules[j].max_diff_pixels);
        }
        lemma_last_set_picks(vs, matched, base.max_diff_pixels, i);
    }
    if rules[i].pixel_tolerance is Some && (forall|j: int|
        i < j < rules.len() ==> !matched[j] || (#[trigger] rules[j]).pixel_tolerance is None) {
        let vs = tolerances(rules);
        assert forall|j: int| i < j < vs.len() implies !matched[j] || (#[trigger] vs[j]) is None by {
            assert(vs[j] == rules[j].pixel_tolerance);
        }
        lemma_last_set_picks(vs, matched, base.pixel_tolerance, i);
    }
    if rules[i].anti_aliasing is Some && (forall|j: int|
        i < j < rules.len() ==> !matched[j] || (#[trigger] rules[j]).anti_aliasing is None) {
        let vs = anti_aliasings(rules);
        assert forall|j: int| i < j < vs.len() implies !matched[j] || (#[trigger] vs[j]) is None by {
            assert(vs[j] == rules[j].anti_aliasing);
        }
        lemma_last_set_picks(vs, matched, base.anti_aliasing, i);
    }
}

/// Law: a setting that no matching rule names keeps its base value.
pub proof fn law_unnamed_setting_keeps_base<F>(
    base: EffectiveCompare<F>,
    rules: Seq<Rule<F>>,
    matched: Seq<bool>,
)
    requires
        matched.len() == rules.len(),
    ensures
        (forall|j: int| 0 <= j < rules.len() ==> !matched[j] || (#[trigger] rules[j]).threshold is None)
            ==> apply_rules(base, rules, matched).threshold == base.threshold,
        (forall|j: int|
            0 <= j < rules.len() ==> !matched[j] || (#[trigger] rules[j]).max_diff_pixels is None)
            ==> apply_rules(base, rules, matched).max_diff_pixels == base.max_diff_pixels,
        (forall|j: int|
            0 <= j < rules.len() ==> !matched[j] || (#[trigger] rules[j]).pixel_tolerance is None)
            ==> apply_rules(base, rules, matched).pixel_tolerance == base.pixel_tolerance,
        (forall|j: int|
            0 <= j < rules.len() ==> !matched[j] || (#[trigger] rules[j]).anti_aliasing is None)
            ==> apply_rules(base, rules, matched).anti_aliasing == base.anti_aliasing,
{
    if forall|j: int| 0 <= j < rules.len() ==> !matched[j] || (#[trigger] rules[j]).threshold is None {
        let vs = thresholds(rules);
        assert forall|j: int| 0 <= j < vs.len() implies !matched[j] || (#[trigger] vs[j]) is None by {
            assert(vs[j] == rules[j].threshold);
        }
        lemma_last_set_unset(vs, matched, base.threshold);
    }
    if forall|j: int| 0 <= j < rules.len() ==> !matched[j] || (#[trigger] rules[j]).max_diff_pixels is None {
        let vs = max_pixels(rules);
        assert forall|j: int| 0 <= j < vs.len() implies !matched[j] || (#[trigger] vs[j]) is None by {
            assert(vs[j] == rules[j].max_diff_pixels);
        }
        lemma_last_set_unset(vs, matched, base.max_diff_pixels);
    }
    if forall|j: int| 0 <= j < rules.len() ==> !matched[j] || (#[trigger] rules[j]).pixel_tolerance is None {
        let vs = tolerances(rules);
        assert forall|j: int| 0 <= j < vs.len() implies !matched[j] || (#[trigger] vs[j]) is None by {
            assert(vs[j] == rules[j].pixel_tolerance);
        }
        lemma_last_set_unset(vs, matched, base.pixel_tolerance);
    }
    if forall|j: int| 0 <= j < rules.len() ==> !matched[j] || (#[trigger] rules[j]).anti_aliasing is None {
        let vs = anti_aliasings(rules);
        assert forall|j: int| 0 <= j < vs.len() implies !matched[j] || (#[trigger] vs[j]) is None by {
            assert(vs[j] == rules[j].anti_aliasing);
        }
        lemma_last_set_unset(vs, matched, base.anti_aliasing);
    }
}

/// The pixel tolerance: the configured one if any, else `ahem` when the
/// capture renders text with the Ahem font, else `other`.
pub fn pixel_tolerance<F: Copy>(explicit: Option<F>, capture: &CaptureConfig, ahem: F, other: F) -> (r: F)
    ensures
        r == match explicit {
            Some(t) => t,
            None => if capture.fonts@ == "ahem"@ {
                ahem
            } else {
                other
            },
        },
{
    match explicit {
        Some(t) => t,
        None => {
            let fonts = chars_of(capture.fonts.as_str());
            let lit = chars_of("ahem");
            if chars_eq(&fonts, &lit) {
                ahem
            } else {
                other
            }
        },
    }
}

// ---------------------------------------------------------------------------
// Glob patterns
// ---------------------------------------------------------------------------
#[verifier::external_type_specification]
#[verifier::external_body]
pub struct ExGlobSet(globset::GlobSet);

/// The longest rule pattern the library compiles: longer ones could
/// overflow the state count of `globset`'s literal matchers.
pub const MAX_PATTERN_LEN: usize = 0x3fff_ffff;

/// What building a glob set from `pattern` with `globset` gives: `None`
/// when it succeeds, else the text of its error, from parsing the pattern
/// (`Glob::new`) or from compiling it (`GlobSetBuilder::build`).
pub uninterp spec fn glob_set_verdict(pattern: Seq<char>) -> Option<Seq<char>>;

/// Whether the glob set built from `pattern` matches `path`.
pub uninterp spec fn glob_matches(pattern: Seq<char>, path: Seq<char>) -> bool;

/// `globset::GlobSetBuilder::build` on the single glob that
/// `globset::Glob::new(pattern)` parses: succeeds exactly when
/// `glob_set_verdict` is `None`, and its error shows the text
/// `glob_set_verdict` names. Patterns longer than [`MAX_PATTERN_LEN`] are
/// left out.
#[verifier::external_body]
fn glob_set(pattern: &str) -> (r: Result<globset::GlobSet, String>)
    requires
        pattern@.len() <= MAX_PATTERN_LEN,
    ensures
        match r {
            Ok(_) => glob_set_verdict(pattern@) is None,
            Err(t) => glob_set_verdict(pattern@) == Some(t@),
        },
{
    let glob = globset::Glob::new(pattern).map_err(|e| e.to_string())?;
    globset::GlobSetBuilder::new().add(glob).build().map_err(|e| e.to_string())
}

/// A glob set built from `pattern`. Only [`RuleMatcher::compile`] builds
/// one, so its set always belongs to its pattern.
pub struct RuleMatcher {
    pattern: String,
    set: globset::GlobSet,
}

/// `globset::GlobSet::is_match` on the set built from `m.pattern`: whether
/// that pattern matches `path`.
#[verifier::external_body]
fn glob_is_match(m: &RuleMatcher, path: &str) -> (r: bool)
    ensures
        r == glob_matches(m.pattern@, path@),
{
    m.set.is_match(path)
}

/// Why the configuration is unusable.
#[derive(Debug, Clone, PartialEq, Eq)]
pub enum ConfigError {
    /// A rule's pattern is not a glob: the pattern and the parser's message.
    Rule(String, String),
}

impl ConfigError {
    /// The human-readable message: ``rule `<pattern>`: <error>``.
    pub fn message(&self) -> (r: String)
        ensures
            match self {
                ConfigError::Rule(p, e) => r@ == "rule `"@ + p@ + "`: "@ + e@,
            },
    {
        match self {
            ConfigError::Rule(p, e) => {
                let mut r = owned("rule `");
                push_str(&mut r, p.as_str());
                push_str(&mut r, "`: ");
                push_str(&mut r, e.as_str());
                r
            },
        }
    }
}

impl RuleMatcher {
    /// The pattern this matcher was compiled from.
    pub closed spec fn pattern_view(&self) -> Seq<char> {
        self.pattern@
    }

    /// Compiles `pattern`; fails with `globset`'s message when it does not
    /// accept the pattern.
    pub fn compile(pattern: &String) -> (r: Result<RuleMatcher, ConfigError>)
        requires
            pattern@.len() <= MAX_PATTERN_LEN,
        ensures
            match r {
                Ok(m) => glob_set_verdict(pattern@) is None && m.pattern_view() == pattern@,
                Err(ConfigError::Rule(p, e)) => p@ == pattern@ && glob_set_verdict(pattern@)
                    == Some(e@),
            },
    {
        match glob_set(pattern.as_str()) {
            Ok(set) => Ok(RuleMatcher { pattern: pattern.clone(), set }),
            Err(e) => Err(ConfigError::Rule(pattern.clone(), e)),
        }
    }

    /// Whether the pattern matches `id`.
    pub fn is_match(&self, id: &str) -> (r: bool)
        ensures
            r == glob_matches(self.pattern_view(), id@),
    {
        glob_is_match(self, id)
    }
}

/// The patterns of the rules, in order.
pub open spec fn patterns<F>(rules: Seq<Rule<F>>) -> Seq<Seq<char>> {
    rules.map_values(|r: Rule<F>| r.pattern@)
}

/// The first rule pattern that `globset` refuses, with its message.
pub open spec fn first_bad_pattern(ps: Seq<Seq<char>>) -> Option<(Seq<char>, Seq<char>)>
    decreases ps.len(),
{
    if ps.len() == 0 {
        None
    } else if glob_set_verdict(ps[0]) is Some {
        Some((ps[0], glob_set_verdict(ps[0])->Some_0))
    } else {
        first_bad_pattern(ps.drop_first())
    }
}

/// Compiles every rule's pattern, in order; the first pattern `globset`
/// refuses is the error.
pub fn matchers<F>(rules: &Vec<Rule<F>>) -> (r: Result<Vec<RuleMatcher>, ConfigError>)
    requires
        forall|i: int| 0 <= i < rules.len() ==> (#[trigger] rules@[i]).pattern@.len() <= MAX_PATTERN_LEN,
    ensures
        match r {
            Ok(ms) => first_bad_pattern(patterns(rules@)) is None && ms.len() == rules.len()
                && forall|i: int| 0 <= i < ms.len() ==> (#[trigger] ms[i]).pattern_view() == rules@[i].pattern@,
            Err(ConfigError::Rule(p, e)) => first_bad_pattern(patterns(rules@)) == Some((p@, e@)),
        },
{
    let ghost ps = patterns(rules@);
    let mut out: Vec<RuleMatcher> = Vec::new();
    let mut i: usize = 0;
    assert(ps.skip(0) =~= ps);
    while i < rules.len()
        invariant
            0 <= i <= rules.len(),
            ps == patterns(rules@),
            forall|j: int| 0 <= j < rules.len() ==> (#[trigger] rules@[j]).pattern@.len() <= MAX_PATTERN_LEN,
            out.len() == i,
            first_bad_pattern(ps) == first_bad_pattern(ps.skip(i as int)),
            forall|j: int| 0 <= j < i ==> (#[trigger] out@[j]).pattern_view() == rules@[j].pattern@,
        decreases rules.len() - i,
    {
        assert(ps.skip(i as int)[0] == rules@[i as int].pattern@);
        assert(ps.skip(i as int).drop_first() =~= ps.skip(i + 1));
        match RuleMatcher::compile(&rules[i].pattern) {
            Ok(m) => {
                out.push(m);
            },
            Err(e) => {
                return Err(e);
            },
        }
        i = i + 1;
    }
    assert(ps.skip(rules.len() as int) =~= Seq::<Seq<char>>::empty());
    Ok(out)
}

/// Which rules match `id`, as their compiled patterns decide.
pub open spec fn matches_of(ms: Seq<RuleMatcher>, id: Seq<char>) -> Seq<bool> {
    ms.map_values(|m: RuleMatcher| glob_matches(m.pattern_view(), id))
}

/// The settings for identity `id`: `base`, overridden in order by every
/// rule whose pattern matches `id` (the last matching rule wins).
pub fn effective<F: Copy>(
    base: EffectiveCompare<F>,
    rules: &Vec<Rule<F>>,
    matchers: &Vec<RuleMatcher>,
    id: &str,
) -> (r: EffectiveCompare<F>)
    requires
        matchers.len() == rules.len(),
    ensures
        r == apply_rules(base, rules@, matches_of(matchers@, id@)),
{
    let mut matched: Vec<bool> = Vec::new();
    let mut i: usize = 0;
    while i < matchers.len()
        invariant
            0 <= i <= matchers.len(),
            matched@ == matches_of(matchers@, id@).take(i as int),
        decreases matchers.len() - i,
    {
        let b = matchers[i].is_match(id);
        matched.push(b);
        i = i + 1;
        assert(matched@ =~= matches_of(matchers@, id@).take(i as int));
    }
    assert(matches_of(matchers@, id@).take(matchers.len() as int) =~= matches_of(matchers@, id@));
    apply_matched_rules(base, rules, &matched)
}

} // verus!
