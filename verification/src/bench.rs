//! The benchmark harness's own logic: reading the `WxH` size flag, finding
//! the repository root, and the files of the generated Flutter fixture.
use vstd::prelude::*;

use crate::layout::{join_path, path_join};
use crate::text::{chars_of, decimal, decimal_string, owned, push_char, push_decimal, push_range, push_str};

verus! {

/// How many golden tests one generated test file holds.
pub const GOLDENS_PER_FILE: usize = 10;

/// Why a decimal number did not read.
#[derive(Debug, Clone, Copy, PartialEq, Eq, Structural)]
pub enum NumberFault {
    Empty,
    InvalidDigit,
    TooLarge,
}

impl NumberFault {
    /// The message for this fault.
    pub fn message(&self) -> (r: &'static str)
        ensures
            r@ == number_fault_text(*self),
    {
        match self {
            NumberFault::Empty => "cannot parse integer from empty string",
            NumberFault::InvalidDigit => "invalid digit found in string",
            NumberFault::TooLarge => "number too large to fit in target type",
        }
    }
}

pub open spec fn number_fault_text(f: NumberFault) -> Seq<char> {
    match f {
        NumberFault::Empty => "cannot parse integer from empty string"@,
        NumberFault::InvalidDigit => "invalid digit found in string"@,
        NumberFault::TooLarge => "number too large to fit in target type"@,
    }
}

pub open spec fn is_digit(c: char) -> bool {
    '0' <= c && c <= '9'
}

pub open spec fn digit_value(c: char) -> nat {
    (c as int - '0' as int) as nat
}

/// Reading digits left to right onto `acc`: the first character that is
/// not a digit is an invalid digit, and a value past `u32::MAX` is too
/// large, whichever comes first.
pub open spec fn read_digits(d: Seq<char>, acc: nat) -> Result<nat, NumberFault>
    decreases d.len(),
{
    if d.len() == 0 {
        Ok(acc)
    } else if !is_digit(d[0]) {
        Err(NumberFault::InvalidDigit)
    } else if acc * 10 + digit_value(d[0]) > u32::MAX {
        Err(NumberFault::TooLarge)
    } else {
        read_digits(d.drop_first(), acc * 10 + digit_value(d[0]))
    }
}

/// A `u32` written in decimal with an optional leading `+`.
pub open spec fn read_u32(s: Seq<char>) -> Result<nat, NumberFault> {
    if s.len() == 0 {
        Err(NumberFault::Empty)
    } else {
        let d = if s[0] == '+' {
            s.drop_first()
        } else {
            s
        };
        if d.len() == 0 {
            Err(NumberFault::InvalidDigit)
        } else {
            read_digits(d, 0)
        }
    }
}

proof fn lemma_read_digits_bound(d: Seq<char>, acc: nat)
    requires
        acc <= u32::MAX,
    ensures
        read_digits(d, acc) matches Ok(v) ==> v <= u32::MAX,
    decreases d.len(),
{
    if d.len() > 0 && is_digit(d[0]) && acc * 10 + digit_value(d[0]) <= u32::MAX {
        lemma_read_digits_bound(d.drop_first(), acc * 10 + digit_value(d[0]));
    }
}

/// Reads a `u32` from `cs[lo..hi]`.
pub fn parse_u32(cs: &Vec<char>, lo: usize, hi: usize) -> (r: Result<u32, NumberFault>)
    requires
        lo <= hi <= cs.len(),
    ensures
        match r {
            Ok(v) => read_u32(cs@.subrange(lo as int, hi as int)) == Ok::<nat, NumberFault>(v as nat),
            Err(e) => read_u32(cs@.subrange(lo as int, hi as int)) == Err::<nat, NumberFault>(e),
        },
{
    let ghost s = cs@.subrange(lo as int, hi as int);
    if lo == hi {
        return Err(NumberFault::Empty);
    }
    let mut i = lo;
    if cs[lo] == '+' {
        i = lo + 1;
    }
    let ghost d = cs@.subrange(i as int, hi as int);
    assert(d =~= if s[0] == '+' { s.drop_first() } else { s });
    if i == hi {
        return Err(NumberFault::InvalidDigit);
    }
    let mut acc: u32 = 0;
    assert(read_u32(s) == read_digits(d, 0));
    assert(cs@.subrange(i as int, hi as int) == d);
    while i < hi
        invariant
            lo <= i <= hi <= cs.len(),
            s == cs@.subrange(lo as int, hi as int),
            read_u32(s) == read_digits(d, 0),
            read_digits(d, 0) == read_digits(cs@.subrange(i as int, hi as int), acc as nat),
        decreases hi - i,
    {
        let c = cs[i];
        let ghost rest = cs@.subrange(i as int, hi as int);
        assert(rest[0] == c);
        assert(rest.drop_first() =~= cs@.subrange(i + 1, hi as int));
        if !('0' <= c && c <= '9') {
            return Err(NumberFault::InvalidDigit);
        }
        let v = (c as u32) - ('0' as u32);
        if acc > 429_496_729 || (acc == 429_496_729 && v > 5) {
            assert(acc * 10 + digit_value(c) > u32::MAX) by (nonlinear_arith)
                requires
                    acc > 429_496_729 || (acc == 429_496_729 && v > 5),
                    v == digit_value(c),
            ;
            return Err(NumberFault::TooLarge);
        }
        assert(acc * 10 + v <= u32::MAX) by (nonlinear_arith)
            requires
                !(acc > 429_496_729 || (acc == 429_496_729 && v > 5)),
                v <= 9,
        ;
        acc = acc * 10 + v;
        i = i + 1;
    }
    assert(cs@.subrange(i as int, hi as int).len() == 0);
    Ok(acc)
}

/// The text of a `WxH` size's result.
pub open spec fn size_result(s: Seq<char>) -> Result<(u32, u32), Seq<char>> {
    if !s.contains('x') {
        Err("size must be WxH, got "@ + s)
    } else {
        let k = first_x(s);
        match read_u32(s.take(k)) {
            Err(e) => Err(number_fault_text(e)),
            Ok(w) => match read_u32(s.skip(k + 1)) {
                Err(e) => Err(number_fault_text(e)),
                Ok(h) => Ok((w as u32, h as u32)),
            },
        }
    }
}

/// The position of the first `x` in `s`.
pub open spec fn first_x(s: Seq<char>) -> int
    decreases s.len(),
{
    if s.len() == 0 || s[0] == 'x' {
        0
    } else {
        1 + first_x(s.drop_first())
    }
}

proof fn lemma_first_x(s: Seq<char>, k: int)
    requires
        0 <= k <= s.len(),
        forall|j: int| 0 <= j < k ==> s[j] != 'x',
        k == s.len() || s[k] == 'x',
    ensures
        first_x(s) == k,
        s.contains('x') <==> k < s.len(),
    decreases k,
{
    if k > 0 {
        lemma_first_x(s.drop_first(), k - 1);
        if s.drop_first().contains('x') {
            let j = choose|j: int| 0 <= j < s.drop_first().len() && s.drop_first()[j] == 'x';
            assert(s[j + 1] == 'x');
        }
    } else if s.len() > 0 {
        assert(s[0] == 'x');
    }
    if k == s.len() && s.contains('x') {
        let j = choose|j: int| 0 <= j < s.len() && s[j] == 'x';
        assert(s[j] == 'x');
    }
}

/// Reads the `--size` flag: width and height as `u32`s around the first
/// `x`, or the message saying why not.
pub fn parse_size(s: &str) -> (r: Result<(u32, u32), String>)
    ensures
        match r {
            Ok(p) => size_result(s@) == Ok::<(u32, u32), Seq<char>>(p),
            Err(m) => size_result(s@) == Err::<(u32, u32), Seq<char>>(m@),
        },
{
    let cs = chars_of(s);
    let n = cs.len();
    let mut k: usize = 0;
    while k < n && cs[k] != 'x'
        invariant
            0 <= k <= n,
            n == cs.len(),
            forall|j: int| 0 <= j < k ==> cs@[j] != 'x',
        decreases n - k,
    {
        k = k + 1;
    }
    proof {
        lemma_first_x(s@, k as int);
        lemma_read_digits_bound(Seq::empty(), 0);
    }
    if k == n {
        let mut m = owned("size must be WxH, got ");
        push_str(&mut m, s);
        return Err(m);
    }
    assert(cs@.subrange(0, k as int) =~= s@.take(k as int));
    assert(cs@.subrange(k + 1, n as int) =~= s@.skip(k + 1));
    let w = match parse_u32(&cs, 0, k) {
        Ok(w) => w,
        Err(e) => {
            return Err(owned(e.message()));
        },
    };
    let h = match parse_u32(&cs, k + 1, n) {
        Ok(h) => h,
        Err(e) => {
            return Err(owned(e.message()));
        },
    };
    Ok((w, h))
}

/// `p` without the `/` characters that end it, keeping a lone `/`.
pub open spec fn trim_end_slashes(p: Seq<char>) -> Seq<char>
    decreases p.len(),
{
    if p.len() > 1 && p.last() == '/' {
        trim_end_slashes(p.drop_last())
    } else {
        p
    }
}

/// The position of the last `/` in `p`, or -1.
pub open spec fn last_slash(p: Seq<char>) -> int
    decreases p.len(),
{
    if p.len() == 0 {
        -1
    } else if p.last() == '/' {
        p.len() - 1
    } else {
        last_slash(p.drop_last())
    }
}

/// The directory holding `p`: `p` without its last component and the
/// separators before it; `/` for a component right under the root, and
/// nothing for a single relative component. Each `/`-separated part counts
/// as a component, `.` included.
pub open spec fn parent_path(p: Seq<char>) -> Seq<char> {
    let t = trim_end_slashes(p);
    let k = last_slash(t);
    if k < 0 {
        Seq::empty()
    } else {
        trim_end_slashes(t.take(k + 1))
    }
}

proof fn lemma_trim_end(p: Seq<char>, e: int)
    requires
        1 <= e <= p.len(),
        forall|j: int| e <= j < p.len() ==> p[j] == '/',
        e == 1 || p[e - 1] != '/',
    ensures
        trim_end_slashes(p) == p.take(e),
    decreases p.len(),
{
    if p.len() > e {
        assert(p.drop_last().take(e) =~= p.take(e));
        lemma_trim_end(p.drop_last(), e);
    } else {
        assert(p.take(e) =~= p);
    }
}

proof fn lemma_last_slash(p: Seq<char>, k: int)
    requires
        -1 <= k < p.len(),
        k >= 0 ==> p[k] == '/',
        forall|j: int| k < j < p.len() ==> p[j] != '/',
    ensures
        last_slash(p) == k,
    decreases p.len(),
{
    if p.len() > 0 && p.last() != '/' {
        lemma_last_slash(p.drop_last(), k);
    }
}

/// The repository root: the directory that holds the harness's own
/// directory `manifest_dir`.
pub fn repo_root(manifest_dir: &str) -> (r: String)
    requires
        exists|i: int| 0 <= i < manifest_dir@.len() && manifest_dir@[i] != '/',
    ensures
        r@ == parent_path(manifest_dir@),
{
    let cs = chars_of(manifest_dir);
    let ghost p = cs@;
    let mut e: usize = cs.len();
    while e > 1 && cs[e - 1] == '/'
        invariant
            1 <= e <= cs.len() || (e == cs.len()),
            forall|j: int| e <= j < cs.len() ==> cs@[j] == '/',
        decreases e,
    {
        e = e - 1;
    }
    proof {
        let i = choose|i: int| 0 <= i < p.len() && p[i] != '/';
        assert(e >= 1);
        lemma_trim_end(p, e as int);
    }
    let ghost t = p.take(e as int);
    let mut k: usize = e;
    while k > 0 && cs[k - 1] != '/'
        invariant
            k <= e <= cs.len(),
            t == cs@.take(e as int),
            forall|j: int| k <= j < e ==> t[j] != '/',
        decreases k,
    {
        k = k - 1;
    }
    if k == 0 {
        proof {
            lemma_last_slash(t, -1);
        }
        return String::new();
    }
    proof {
        lemma_last_slash(t, k - 1);
    }
    let ghost q = t.take(k as int);
    let mut m: usize = k;
    while m > 1 && cs[m - 1] == '/'
        invariant
            1 <= m <= k <= e <= cs.len(),
            t == cs@.take(e as int),
            q == t.take(k as int),
            q[k - 1] == '/',
            forall|j: int| m <= j < k ==> q[j] == '/',
        decreases m,
    {
        m = m - 1;
    }
    proof {
        lemma_trim_end(q, m as int);
    }
    let mut r = String::new();
    push_range(&mut r, &cs, 0, m);
    assert(r@ =~= q.take(m as int));
    r
}

/// `s` with every occurrence of `pat`, found left to right without
/// overlap, replaced by `with`.
pub open spec fn replaced(s: Seq<char>, pat: Seq<char>, with: Seq<char>) -> Seq<char>
    decreases s.len(),
{
    if pat.len() == 0 || s.len() == 0 {
        s
    } else if s.len() >= pat.len() && s.take(pat.len() as int) == pat {
        with + replaced(s.skip(pat.len() as int), pat, with)
    } else {
        seq![s[0]] + replaced(s.drop_first(), pat, with)
    }
}

fn matches_at(cs: &Vec<char>, i: usize, pat: &Vec<char>) -> (r: bool)
    requires
        i <= cs.len(),
    ensures
        r == (cs.len() - i >= pat.len() && cs@.skip(i as int).take(pat.len() as int) == pat@),
{
    if cs.len() - i < pat.len() {
        return false;
    }
    let mut j: usize = 0;
    while j < pat.len()
        invariant
            0 <= j <= pat.len(),
            i + pat.len() <= cs.len(),
            forall|m: int| 0 <= m < j ==> cs@[i + m] == pat@[m],
        decreases pat.len() - j,
    {
        if cs[i + j] != pat[j] {
            assert(cs@.skip(i as int).take(pat.len() as int)[j as int] != pat@[j as int]);
            return false;
        }
        j = j + 1;
    }
    assert(cs@.skip(i as int).take(pat.len() as int) =~= pat@);
    true
}

/// `s` with each `pat` replaced by `with`.
pub fn replace_all(s: &str, pat: &str, with: &str) -> (r: String)
    requires
        pat@.len() > 0,
    ensures
        r@ == replaced(s@, pat@, with@),
{
    let cs = chars_of(s);
    let ps = chars_of(pat);
    let mut out = String::new();
    let mut i: usize = 0;
    assert(cs@.skip(0) =~= s@);
    while i < cs.len()
        invariant
            0 <= i <= cs.len(),
            cs@ == s@,
            ps@ == pat@,
            pat@.len() > 0,
            out@ + replaced(cs@.skip(i as int), pat@, with@) == replaced(s@, pat@, with@),
        decreases cs.len() - i,
    {
        let ghost rest = cs@.skip(i as int);
        let ghost before = out@;
        if matches_at(&cs, i, &ps) {
            push_str(&mut out, with);
            assert(rest.skip(ps.len() as int) =~= cs@.skip(i + ps.len()));
            let ghost tail = replaced(cs@.skip(i + ps.len()), pat@, with@);
            assert(replaced(rest, pat@, with@) == with@ + tail);
            assert(out@ + tail =~= before + (with@ + tail));
            i = i + ps.len();
        } else {
            push_char(&mut out, cs[i]);
            assert(rest.drop_first() =~= cs@.skip(i + 1));
            let ghost tail = replaced(cs@.skip(i + 1), pat@, with@);
            assert(rest[0] == cs@[i as int]);
            assert(replaced(rest, pat@, with@) == seq![cs@[i as int]] + tail);
            assert(out@ + tail =~= before + (seq![cs@[i as int]] + tail));
            i = i + 1;
        }
    }
    assert(cs@.skip(i as int) =~= Seq::<char>::empty());
    out
}

/// The text files the fixture is made from.
pub struct FixtureTemplates {
    /// `pubspec.yaml`, with `__ADAPTER_PATH__` for the adapter's path.
    pub pubspec: String,
    /// `lib/bench_widget.dart`.
    pub widget: String,
    /// `test/flutter_test_config.dart`.
    pub test_config: String,
    /// The start of each test file.
    pub test_header: String,
    /// One golden test, with `__INDEX__`, `__GOLDEN__`, `__WIDTH__` and
    /// `__HEIGHT__` to fill in.
    pub test_case: String,
}

/// Golden test number `index`, the `golden`-th of its file.
pub open spec fn case_text(t: Seq<char>, index: nat, golden: nat, w: u32, h: u32) -> Seq<char> {
    replaced(
        replaced(
            replaced(replaced(t, "__INDEX__"@, decimal(index)), "__GOLDEN__"@, decimal(golden)),
            "__WIDTH__"@,
            decimal(w as nat),
        ),
        "__HEIGHT__"@,
        decimal(h as nat),
    )
}

/// The first `j` golden tests of test file `f`, stopping at the total.
pub open spec fn cases_text(t: Seq<char>, f: nat, goldens: nat, w: u32, h: u32, j: nat) -> Seq<char>
    decreases j,
{
    if j == 0 {
        Seq::empty()
    } else {
        let prev = cases_text(t, f, goldens, w, h, (j - 1) as nat);
        let index = f * 10 + (j - 1);
        if index >= goldens {
            prev
        } else {
            prev + case_text(t, index as nat, (j - 1) as nat, w, h)
        }
    }
}

/// Test file `f`: the header, its golden tests, and the closing brace.
pub open spec fn test_file_text(t: FixtureTemplates, f: nat, goldens: nat, w: u32, h: u32) -> Seq<char> {
    t.test_header@ + cases_text(t.test_case@, f, goldens, w, h, GOLDENS_PER_FILE as nat) + "}\n"@
}

/// The number of test files: the goldens in files of ten.
pub open spec fn test_file_count(goldens: nat) -> nat {
    (goldens + 9) as nat / 10
}

/// Where test file `f` goes.
pub open spec fn test_file_path(fixture: Seq<char>, f: nat) -> Seq<char> {
    path_join(path_join(path_join(fixture, "test"@), "g"@ + decimal(f)), "bench_test.dart"@)
}

/// The fixture's files, as path and text: the package description with
/// the adapter's path, the configuration, the widget, the test
/// configuration, and the test files.
pub open spec fn fixture_files(
    fixture: Seq<char>,
    root: Seq<char>,
    t: FixtureTemplates,
    goldens: nat,
    w: u32,
    h: u32,
) -> Seq<(Seq<char>, Seq<char>)> {
    let adapter = path_join(path_join(root, "adapters"@), "flutter"@);
    seq![
        (path_join(fixture, "pubspec.yaml"@), replaced(t.pubspec@, "__ADAPTER_PATH__"@, adapter)),
        (path_join(fixture, "mitame.toml"@), "[compare]\nthreshold = 0.0\n"@),
        (path_join(path_join(fixture, "lib"@), "bench_widget.dart"@), t.widget@),
        (path_join(path_join(fixture, "test"@), "flutter_test_config.dart"@), t.test_config@),
    ] + Seq::new(
        test_file_count(goldens),
        |f: int| (test_file_path(fixture, f as nat), test_file_text(t, f as nat, goldens, w, h)),
    )
}

fn test_file(t: &FixtureTemplates, f: usize, goldens: usize, w: u32, h: u32) -> (r: String)
    requires
        f * 10 < goldens,
    ensures
        r@ == test_file_text(*t, f as nat, goldens as nat, w, h),
{
    let mut body = owned(t.test_header.as_str());
    let ghost head = body@;
    let mut j: usize = 0;
    let base = f * 10;
    while j < GOLDENS_PER_FILE
        invariant
            0 <= j <= GOLDENS_PER_FILE,
            base == f * 10,
            base < goldens,
            head == t.test_header@,
            body@ == head + cases_text(t.test_case@, f as nat, goldens as nat, w, h, j as nat),
        decreases GOLDENS_PER_FILE - j,
    {
        if j >= goldens - base {
            proof {
                assert forall|k: nat| j <= k <= 10 implies cases_text(t.test_case@, f as nat, goldens as nat, w, h, k)
                    == cases_text(t.test_case@, f as nat, goldens as nat, w, h, j as nat) by {
                    lemma_cases_stop(t.test_case@, f as nat, goldens as nat, w, h, j as nat, k);
                }
            }
            j = GOLDENS_PER_FILE;
        } else {
            proof {
                reveal_strlit("__INDEX__");
                reveal_strlit("__GOLDEN__");
                reveal_strlit("__WIDTH__");
                reveal_strlit("__HEIGHT__");
            }
            let index = base + j;
            let c1 = replace_all(t.test_case.as_str(), "__INDEX__", decimal_string(index as u64).as_str());
            let c2 = replace_all(c1.as_str(), "__GOLDEN__", decimal_string(j as u64).as_str());
            let c3 = replace_all(c2.as_str(), "__WIDTH__", decimal_string(w as u64).as_str());
            let c4 = replace_all(c3.as_str(), "__HEIGHT__", decimal_string(h as u64).as_str());
            let ghost prev = body@;
            push_str(&mut body, c4.as_str());
            assert(body@ =~= head + cases_text(t.test_case@, f as nat, goldens as nat, w, h, (j + 1) as nat));
            j = j + 1;
        }
    }
    push_str(&mut body, "}\n");
    body
}

proof fn lemma_cases_stop(t: Seq<char>, f: nat, goldens: nat, w: u32, h: u32, j: nat, k: nat)
    requires
        f * 10 + j >= goldens,
        j <= k,
    ensures
        cases_text(t, f, goldens, w, h, k) == cases_text(t, f, goldens, w, h, j),
    decreases k,
{
    if k > j {
        lemma_cases_stop(t, f, goldens, w, h, j, (k - 1) as nat);
    }
}

/// The files of a benchmark fixture with `goldens` golden tests of
/// `width` × `height` pixels, for the repository at `root`.
pub fn generate(
    fixture: &str,
    root: &str,
    goldens: usize,
    width: u32,
    height: u32,
    t: &FixtureTemplates,
) -> (r: Vec<(String, String)>)
    ensures
        crate::cli::pair_views(r@) == fixture_files(fixture@, root@, *t, goldens as nat, width, height),
{
    let a = join_path(root, "adapters");
    let adapter = join_path(a.as_str(), "flutter");
    let mut files: Vec<(String, String)> = Vec::new();
    proof {
        reveal_strlit("__ADAPTER_PATH__");
    }
    files.push((join_path(fixture, "pubspec.yaml"), replace_all(t.pubspec.as_str(), "__ADAPTER_PATH__", adapter.as_str())));
    files.push((join_path(fixture, "mitame.toml"), owned("[compare]\nthreshold = 0.0\n")));
    let lib = join_path(fixture, "lib");
    files.push((join_path(lib.as_str(), "bench_widget.dart"), owned(t.widget.as_str())));
    let test = join_path(fixture, "test");
    files.push((join_path(test.as_str(), "flutter_test_config.dart"), owned(t.test_config.as_str())));
    let count = goldens / 10 + if goldens % 10 > 0 { 1 } else { 0 };
    assert(count == test_file_count(goldens as nat));
    let ghost want = fixture_files(fixture@, root@, *t, goldens as nat, width, height);
    assert(crate::cli::pair_views(files@) =~= want.take(4));
    let mut f: usize = 0;
    while f < count
        invariant
            0 <= f <= count,
            count == test_file_count(goldens as nat),
            want == fixture_files(fixture@, root@, *t, goldens as nat, width, height),
            test@ == path_join(fixture@, "test"@),
            crate::cli::pair_views(files@) == want.take(4 + f),
        decreases count - f,
    {
        let mut g = owned("g");
        push_decimal(&mut g, f as u64);
        let dir = join_path(test.as_str(), g.as_str());
        let path = join_path(dir.as_str(), "bench_test.dart");
        assert(f * 10 < goldens) by (nonlinear_arith)
            requires
                f < count,
                count == (goldens + 9) / 10,
        ;
        let text = test_file(t, f, goldens, width, height);
        let ghost before = crate::cli::pair_views(files@);
        let ghost pv = (path@, text@);
        assert(pv == want[4 + f]);
        files.push((path, text));
        assert(crate::cli::pair_views(files@) =~= before.push(pv));
        assert(crate::cli::pair_views(files@) =~= want.take(4 + f + 1));
        f = f + 1;
    }
    assert(want.take(4 + count) =~= want);
    files
}

} // verus!
