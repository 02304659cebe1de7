//! Command-line options of the compiler and the parsing of the
//! `--max-footprint` value.
use vstd::prelude::*;

use crate::text::{decimal, digit_char};
use vstd::string::StrSliceExecFns;

verus! {

/// Placer choice.
#[derive(Debug, Clone, Copy, PartialEq, Eq, Structural)]
pub enum Placer {
    /// Simulated annealing (default).
    Sa,
    /// Row-based greedy.
    Greedy,
}

/// Router choice.
#[derive(Debug, Clone, Copy, PartialEq, Eq, Structural)]
pub enum Router {
    /// Bounded maze router (default).
    Lee,
    /// A* with negotiated congestion.
    Pathfinder,
}

/// A footprint `W×H×D` in blocks.
#[derive(Debug, Clone, Copy, PartialEq, Eq, Structural)]
pub struct Footprint {
    /// Width along +X.
    pub width: u32,
    /// Height along +Y.
    pub height: u32,
    /// Depth along +Z.
    pub depth: u32,
}

/// The compiler's options.
#[derive(Debug, Clone)]
pub struct Cli {
    /// Input HDL source file.
    pub input: String,
    /// Output schematic path; required unless `dump_only`.
    pub output: Option<String>,
    /// Largest permitted footprint.
    pub max_footprint: Option<Footprint>,
    /// Seed of the randomized stages.
    pub seed: Option<u64>,
    /// Where to dump the module (`-` for standard output).
    pub dump_ast: Option<String>,
    /// Where to dump the netlist.
    pub dump_netlist: Option<String>,
    /// Where to dump the placement.
    pub dump_placement: Option<String>,
    /// Stop after the dumps.
    pub dump_only: bool,
    /// Verbosity level.
    pub verbose: u8,
    /// Placement algorithm.
    pub placer: Placer,
    /// Routing algorithm.
    pub router: Router,
    /// Cap on negotiated-congestion iterations.
    pub max_routing_iterations: u32,
    /// Per-net distance cap of the maze router.
    pub max_route_distance: u32,
    /// Report timing races as warnings.
    pub allow_timing_races: bool,
    /// Report timing races as errors (overrides the previous option).
    pub strict_timing: bool,
    /// Memory cap in MiB.
    pub max_ram: u32,
    /// Print per-stage statistics.
    pub stats: bool,
}

/// `c` has the Unicode `White_Space` property.
pub open spec fn is_ws(c: char) -> bool {
    ||| c == '\t' || c == '\n' || c == '\u{0B}' || c == '\u{0C}' || c == '\r' || c == ' '
    ||| c == '\u{85}' || c == '\u{A0}' || c == '\u{1680}'
    ||| ('\u{2000}' <= c && c <= '\u{200A}')
    ||| c == '\u{2028}' || c == '\u{2029}' || c == '\u{202F}' || c == '\u{205F}' || c == '\u{3000}'
}

fn is_ws_exec(c: char) -> (r: bool)
    ensures
        r == is_ws(c),
{
    c == '\t' || c == '\n' || c == '\u{0B}' || c == '\u{0C}' || c == '\r' || c == ' ' || c == '\u{85}'
        || c == '\u{A0}' || c == '\u{1680}' || ('\u{2000}' <= c && c <= '\u{200A}') || c == '\u{2028}'
        || c == '\u{2029}' || c == '\u{202F}' || c == '\u{205F}' || c == '\u{3000}'
}

/// Number of leading whitespace characters of `s`.
pub open spec fn lead_ws(s: Seq<char>) -> nat
    decreases s.len(),
{
    if s.len() > 0 && is_ws(s[0]) { 1 + lead_ws(s.drop_first()) } else { 0 }
}

/// Number of trailing whitespace characters of `s`.
pub open spec fn trail_ws(s: Seq<char>) -> nat
    decreases s.len(),
{
    if s.len() > 0 && is_ws(s.last()) { 1 + trail_ws(s.drop_last()) } else { 0 }
}

/// `s` without leading and trailing whitespace.
pub open spec fn trim_spec(s: Seq<char>) -> Seq<char> {
    let l = lead_ws(s);
    if l == s.len() { Seq::empty() } else { s.subrange(l as int, s.len() - trail_ws(s)) }
}

/// Ways a decimal `u32` can fail to parse.
#[derive(Debug, Clone, Copy, PartialEq, Eq, Structural)]
pub enum IntFail {
    /// Nothing to parse.
    Empty,
    /// A character that is not a digit.
    InvalidDigit,
    /// The value does not fit.
    Overflow,
}

/// Text of an integer-parse failure.
pub open spec fn int_fail_text(f: IntFail) -> Seq<char> {
    match f {
        IntFail::Empty => "cannot parse integer from empty string"@,
        IntFail::InvalidDigit => "invalid digit found in string"@,
        IntFail::Overflow => "number too large to fit in target type"@,
    }
}

/// Accumulating the decimal digits `d` onto `acc`, left to right.
pub open spec fn digits_value(acc: int, d: Seq<char>) -> Result<int, IntFail>
    decreases d.len(),
{
    if d.len() == 0 {
        Ok(acc)
    } else if !('0' <= d[0] && d[0] <= '9') {
        Err(IntFail::InvalidDigit)
    } else {
        let v = acc * 10 + (d[0] as int - '0' as int);
        if v > u32::MAX { Err(IntFail::Overflow) } else { digits_value(v, d.drop_first()) }
    }
}

/// Parsing `s` as a decimal `u32` (an optional leading `+`).
pub open spec fn parse_u32_spec(s: Seq<char>) -> Result<u32, IntFail> {
    if s.len() == 0 {
        Err(IntFail::Empty)
    } else if s.len() == 1 && (s[0] == '+' || s[0] == '-') {
        Err(IntFail::InvalidDigit)
    } else {
        let d = if s[0] == '+' { s.drop_first() } else { s };
        match digits_value(0, d) {
            Ok(v) => Ok(v as u32),
            Err(e) => Err(e),
        }
    }
}

/// A component of a footprint: parsed and range-checked, or the error
/// text.
pub open spec fn component_spec(label: Seq<char>, p: Seq<char>) -> Result<u32, Seq<char>> {
    match parse_u32_spec(trim_spec(p)) {
        Err(e) => Err("invalid "@ + label + " '"@ + p + "': "@ + int_fail_text(e)),
        Ok(v) => if v == 0 {
            Err(label + " must be > 0, got 0"@)
        } else if v > 4096 {
            Err(label + " too large: "@ + decimal(v as nat) + " > 4096 (sanity cap)"@)
        } else {
            Ok(v)
        },
    }
}

/// `c` separates footprint components.
pub open spec fn is_sep(c: char) -> bool {
    c == 'x' || c == 'X' || c == '×'
}

/// The components of `s` between separators.
pub open spec fn split_spec(s: Seq<char>) -> Seq<Seq<char>>
    decreases s.len(),
{
    if s.len() == 0 {
        seq![Seq::empty()]
    } else {
        let prev = split_spec(s.drop_last());
        if is_sep(s.last()) {
            prev.push(Seq::empty())
        } else {
            prev.update(prev.len() - 1, prev.last().push(s.last()))
        }
    }
}

/// Parsing a footprint: exactly three components, each a whole number in
/// `1..=4096`, checked in order width, height, depth.
pub open spec fn footprint_spec(s: Seq<char>) -> Result<Footprint, Seq<char>> {
    let parts = split_spec(s);
    if parts.len() != 3 {
        Err("expected WxHxD (three components separated by 'x' or '×'), got '"@ + s + "'"@)
    } else {
        match component_spec("width"@, parts[0]) {
            Err(e) => Err(e),
            Ok(w) => match component_spec("height"@, parts[1]) {
                Err(e) => Err(e),
                Ok(h) => match component_spec("depth"@, parts[2]) {
                    Err(e) => Err(e),
                    Ok(d) => Ok(Footprint { width: w, height: h, depth: d }),
                },
            },
        }
    }
}

fn lead_ws_count(s: &str) -> (r: usize)
    ensures
        r == lead_ws(s@),
        r <= s@.len(),
{
    let n = s.unicode_len();
    let mut i: usize = 0;
    proof {
        assert(s@.skip(0) =~= s@);
    }
    while i < n && is_ws_exec(s.get_char(i))
        invariant
            n == s@.len(),
            i <= n,
            lead_ws(s@) == i + lead_ws(s@.skip(i as int)),
        decreases n - i,
    {
        proof {
            assert(s@.skip(i as int).drop_first() =~= s@.skip(i as int + 1));
        }
        i = i + 1;
    }
    proof {
        if i < n {
            assert(s@.skip(i as int)[0] == s@[i as int]);
        }
        assert(s@.skip(0) =~= s@);
    }
    i
}

fn trail_ws_count(s: &str) -> (r: usize)
    ensures
        r == trail_ws(s@),
        r <= s@.len(),
{
    let n = s.unicode_len();
    let mut i: usize = 0;
    proof {
        assert(s@.take(n as int) =~= s@);
    }
    while i < n && is_ws_exec(s.get_char(n - 1 - i))
        invariant
            n == s@.len(),
            i <= n,
            trail_ws(s@) == i + trail_ws(s@.take(n - i)),
        decreases n - i,
    {
        proof {
            assert(s@.take(n - i).drop_last() =~= s@.take(n - i - 1));
            assert(s@.take(n - i).last() == s@[n - 1 - i]);
        }
        i = i + 1;
    }
    proof {
        if i < n {
            assert(s@.take(n - i).last() == s@[n - 1 - i]);
        }
    }
    i
}

/// Leading whitespace runs over all of `s` only if `s` is all whitespace,
/// in which case the trailing count is its length too.
proof fn lemma_ws_counts(s: Seq<char>)
    ensures
        lead_ws(s) <= s.len(),
        trail_ws(s) <= s.len(),
        lead_ws(s) < s.len() ==> lead_ws(s) + trail_ws(s) < s.len() + 1 && lead_ws(s) <= s.len() - trail_ws(s),
    decreases s.len(),
{
    if s.len() > 0 {
        lemma_ws_counts(s.drop_first());
        lemma_ws_counts(s.drop_last());
        if lead_ws(s) < s.len() {
            lemma_lead_trail(s);
        }
    }
}

proof fn lemma_lead_trail(s: Seq<char>)
    requires
        lead_ws(s) < s.len(),
    ensures
        lead_ws(s) <= s.len() - trail_ws(s),
    decreases s.len(),
{
    lemma_lead_le(s);
    lemma_trail_le(s);
    if is_ws(s[0]) {
        assert(s.drop_first().len() > 0);
        lemma_lead_trail(s.drop_first());
        lemma_trail_drop_first(s);
    } else {
        lemma_trail_not_all(s);
    }
}

proof fn lemma_lead_le(s: Seq<char>)
    ensures
        lead_ws(s) <= s.len(),
    decreases s.len(),
{
    if s.len() > 0 {
        lemma_lead_le(s.drop_first());
    }
}

proof fn lemma_trail_le(s: Seq<char>)
    ensures
        trail_ws(s) <= s.len(),
    decreases s.len(),
{
    if s.len() > 0 {
        lemma_trail_le(s.drop_last());
    }
}

/// When `s` does not end in all-whitespace past its first character,
/// dropping that whitespace first character keeps the trailing count.
proof fn lemma_trail_drop_first(s: Seq<char>)
    requires
        s.len() > 0,
        is_ws(s[0]),
        lead_ws(s) < s.len(),
    ensures
        trail_ws(s) == trail_ws(s.drop_first()),
    decreases s.len(),
{
    if is_ws(s.last()) {
        assert(s.len() > 1);
        let t = s.drop_last();
        assert(t[0] == s[0]);
        assert(t.drop_first() =~= s.drop_first().drop_last());
        assert(s.drop_first().last() == s.last());
        lemma_lead_drop_last(s);
        lemma_trail_drop_first(t);
    } else {
        assert(s.drop_first().last() == s.last());
    }
}

/// Dropping a whitespace last character of a string that is not all
/// whitespace keeps its leading count below its length.
proof fn lemma_lead_drop_last(s: Seq<char>)
    requires
        s.len() > 0,
        is_ws(s.last()),
        lead_ws(s) < s.len(),
    ensures
        lead_ws(s.drop_last()) < s.drop_last().len(),
        lead_ws(s.drop_last()) == lead_ws(s),
    decreases s.len(),
{
    if s.len() > 1 && is_ws(s[0]) {
        assert(s.drop_first().drop_last() =~= s.drop_last().drop_first());
        assert(s.drop_first().last() == s.last());
        lemma_lead_drop_last(s.drop_first());
    }
}

proof fn lemma_trail_not_all(s: Seq<char>)
    requires
        s.len() > 0,
        !is_ws(s[0]),
    ensures
        trail_ws(s) < s.len(),
    decreases s.len(),
{
    if is_ws(s.last()) {
        assert(s.len() > 1);
        assert(s.drop_last()[0] == s[0]);
        lemma_trail_not_all(s.drop_last());
    }
}

fn trim_str(s: &str) -> (r: &str)
    ensures
        r@ == trim_spec(s@),
{
    let n = s.unicode_len();
    let l = lead_ws_count(s);
    if l == n {
        return s.substring_char(0, 0);
    }
    let t = trail_ws_count(s);
    proof {
        lemma_lead_trail(s@);
    }
    s.substring_char(l, n - t)
}

/// Parses a decimal `u32` as `str::parse` does: an optional `+`, then
/// digits.
pub fn parse_u32(s: &str) -> (r: Result<u32, IntFail>)
    ensures
        r == parse_u32_spec(s@),
{
    let n = s.unicode_len();
    if n == 0 {
        return Err(IntFail::Empty);
    }
    let c0 = s.get_char(0);
    if n == 1 && (c0 == '+' || c0 == '-') {
        return Err(IntFail::InvalidDigit);
    }
    let start: usize = if c0 == '+' { 1 } else { 0 };
    let ghost d = if s@[0] == '+' { s@.drop_first() } else { s@ };
    proof {
        assert(d =~= s@.skip(start as int));
    }
    let mut acc: u64 = 0;
    let mut i: usize = start;
    while i < n
        invariant
            n == s@.len(),
            start <= i <= n,
            n > 0,
            !(n == 1 && (s@[0] == '+' || s@[0] == '-')),
            d == (if s@[0] == '+' { s@.drop_first() } else { s@ }),
            d == s@.skip(start as int),
            acc <= u32::MAX,
            digits_value(0, d) == digits_value(acc as int, s@.skip(i as int)),
        decreases n - i,
    {
        let c = s.get_char(i);
        proof {
            assert(s@.skip(i as int)[0] == c);
            assert(s@.skip(i as int).drop_first() =~= s@.skip(i as int + 1));
        }
        if !('0' <= c && c <= '9') {
            proof {
                assert(digits_value(acc as int, s@.skip(i as int)) == Err::<int, IntFail>(IntFail::InvalidDigit));
            }
            return Err(IntFail::InvalidDigit);
        }
        let v = acc * 10 + (c as u64 - '0' as u64);
        if v > u32::MAX as u64 {
            proof {
                assert(digits_value(acc as int, s@.skip(i as int)) == Err::<int, IntFail>(IntFail::Overflow));
            }
            return Err(IntFail::Overflow);
        }
        acc = v;
        i = i + 1;
    }
    proof {
        assert(s@.skip(n as int).len() == 0);
    }
    Ok(acc as u32)
}

fn int_fail_string(f: IntFail) -> (r: &'static str)
    ensures
        r@ == int_fail_text(f),
{
    match f {
        IntFail::Empty => "cannot parse integer from empty string",
        IntFail::InvalidDigit => "invalid digit found in string",
        IntFail::Overflow => "number too large to fit in target type",
    }
}

fn component(label: &str, p: &str) -> (r: Result<u32, String>)
    ensures
        match r {
            Ok(v) => component_spec(label@, p@) == Ok::<u32, Seq<char>>(v),
            Err(e) => component_spec(label@, p@) == Err::<u32, Seq<char>>(e@),
        },
{
    let t = trim_str(p);
    match parse_u32(t) {
        Err(e) => {
            let mut m = String::from_str("invalid ");
            m.append(label);
            m.append(" '");
            m.append(p);
            m.append("': ");
            m.append(int_fail_string(e));
            Err(m)
        },
        Ok(v) => {
            if v == 0 {
                let mut m = String::from_str(label);
                m.append(" must be > 0, got 0");
                Err(m)
            } else if v > 4096 {
                let mut m = String::from_str(label);
                m.append(" too large: ");
                let d = crate::text::u64_to_string(v as u64);
                m.append(d.as_str());
                m.append(" > 4096 (sanity cap)");
                Err(m)
            } else {
                Ok(v)
            }
        },
    }
}

impl Footprint {
    /// Parses `W×H×D` (components separated by `x`, `X` or `×`, each a
    /// whole number in `1..=4096`, surrounding whitespace ignored); the
    /// error text names the first offending component.
    pub fn parse(s: &str) -> (r: Result<Footprint, String>)
        ensures
            match r {
                Ok(f) => footprint_spec(s@) == Ok::<Footprint, Seq<char>>(f),
                Err(e) => footprint_spec(s@) == Err::<Footprint, Seq<char>>(e@),
            },
    {
        let n = s.unicode_len();
        let mut ranges: Vec<(usize, usize)> = Vec::new();
        let mut start: usize = 0;
        for i in 0..n
            invariant
                n == s@.len(),
                start <= i,
                forall|k: int| 0 <= k < ranges@.len() ==> (#[trigger] ranges@[k]).0 <= ranges@[k].1 <= i,
                split_spec(s@.take(i as int)).len() == ranges@.len() + 1,
                forall|k: int| 0 <= k < ranges@.len() ==> split_spec(s@.take(i as int))[k] == s@.subrange(
                    (#[trigger] ranges@[k]).0 as int,
                    ranges@[k].1 as int,
                ),
                split_spec(s@.take(i as int)).last() == s@.subrange(start as int, i as int),
        {
            let c = s.get_char(i);
            proof {
                assert(s@.take(i as int + 1).drop_last() =~= s@.take(i as int));
                assert(s@.take(i as int + 1).last() == c);
            }
            if c == 'x' || c == 'X' || c == '×' {
                ranges.push((start, i));
                start = i + 1;
                proof {
                    assert(s@.subrange(start as int, i as int + 1) =~= Seq::<char>::empty());
                }
            } else {
                proof {
                    assert(s@.subrange(start as int, i as int + 1) =~= s@.subrange(start as int, i as int).push(c));
                }
            }
        }
        ranges.push((start, n));
        proof {
            assert(s@.take(n as int) =~= s@);
        }
        if ranges.len() != 3 {
            let mut m = String::from_str("expected WxHxD (three components separated by 'x' or '×'), got '");
            m.append(s);
            m.append("'");
            return Err(m);
        }
        let w = match component("width", s.substring_char(ranges[0].0, ranges[0].1)) {
            Ok(v) => v,
            Err(e) => {
                return Err(e);
            },
        };
        let h = match component("height", s.substring_char(ranges[1].0, ranges[1].1)) {
            Ok(v) => v,
            Err(e) => {
                return Err(e);
            },
        };
        let d = match component("depth", s.substring_char(ranges[2].0, ranges[2].1)) {
            Ok(v) => v,
            Err(e) => {
                return Err(e);
            },
        };
        Ok(Footprint { width: w, height: h, depth: d })
    }
}

/// An accepted footprint has every dimension in `1..=4096`.
pub proof fn law_footprint_in_range(s: Seq<char>)
    ensures
        footprint_spec(s) matches Ok(f) ==> 1 <= f.width <= 4096 && 1 <= f.height <= 4096 && 1 <= f.depth
            <= 4096,
{
}

/// A digit character is a decimal digit with that value.
proof fn lemma_digit_char(d: nat)
    requires
        d < 10,
    ensures
        '0' <= digit_char(d) <= '9',
        digit_char(d) as int - '0' as int == d,
        !is_ws(digit_char(d)),
        !is_sep(digit_char(d)),
{
}

/// Every character of a decimal rendering is a digit, and there is at
/// least one.
proof fn lemma_decimal_digits(n: nat)
    ensures
        decimal(n).len() >= 1,
        forall|i: int| 0 <= i < decimal(n).len() ==> '0' <= #[trigger] decimal(n)[i] <= '9',
    decreases n,
{
    if n < 10 {
        lemma_digit_char(n);
    } else {
        lemma_decimal_digits(n / 10);
        lemma_digit_char(n % 10);
    }
}

/// Reading digits is a left fold: reading `d1 + d2` reads `d1`, then
/// continues with `d2` from the value so far.
proof fn lemma_digits_concat(acc: int, d1: Seq<char>, d2: Seq<char>)
    ensures
        digits_value(acc, d1 + d2) == (match digits_value(acc, d1) {
            Ok(v) => digits_value(v, d2),
            Err(e) => Err(e),
        }),
    decreases d1.len(),
{
    if d1.len() == 0 {
        assert(d1 + d2 =~= d2);
    } else {
        assert((d1 + d2)[0] == d1[0]);
        assert((d1 + d2).drop_first() =~= d1.drop_first() + d2);
        if '0' <= d1[0] && d1[0] <= '9' {
            let v = acc * 10 + (d1[0] as int - '0' as int);
            if v <= u32::MAX {
                lemma_digits_concat(v, d1.drop_first(), d2);
            }
        }
    }
}

/// The decimal rendering of a `u32` reads back as its value.
proof fn lemma_decimal_reads_back(n: nat)
    requires
        n <= u32::MAX,
    ensures
        digits_value(0, decimal(n)) == Ok::<int, IntFail>(n as int),
    decreases n,
{
    if n < 10 {
        lemma_digit_char(n);
        let d = decimal(n);
        assert(d == seq![digit_char(n)]);
        assert(d.drop_first() =~= Seq::<char>::empty());
        assert(digits_value(n as int, d.drop_first()) == Ok::<int, IntFail>(n as int));
    } else {
        lemma_decimal_reads_back(n / 10);
        lemma_digit_char(n % 10);
        let c = digit_char(n % 10);
        assert(decimal(n) =~= decimal(n / 10) + seq![c]);
        lemma_digits_concat(0, decimal(n / 10), seq![c]);
        assert(seq![c].drop_first() =~= Seq::<char>::empty());
        assert((n / 10) * 10 + n % 10 == n);
        let v = (n / 10) as int * 10 + (c as int - '0' as int);
        assert(v == n);
        assert(digits_value(v, seq![c].drop_first()) == Ok::<int, IntFail>(n as int));
        assert(digits_value((n / 10) as int, seq![c]) == Ok::<int, IntFail>(n as int));
    }
}

/// Trimming a non-empty text whose ends are not whitespace changes nothing.
proof fn lemma_trim_plain(s: Seq<char>)
    requires
        s.len() >= 1,
        !is_ws(s[0]),
        !is_ws(s.last()),
    ensures
        trim_spec(s) == s,
{
    assert(lead_ws(s) == 0);
    assert(trail_ws(s) == 0);
    assert(s.subrange(0, s.len() as int) =~= s);
}

/// Splitting never yields an empty list of components.
proof fn lemma_split_nonempty(s: Seq<char>)
    ensures
        split_spec(s).len() >= 1,
    decreases s.len(),
{
    if s.len() > 0 {
        lemma_split_nonempty(s.drop_last());
    }
}

/// Appending text without separators extends the last component.
proof fn lemma_split_append_plain(p: Seq<char>, q: Seq<char>)
    requires
        forall|i: int| 0 <= i < q.len() ==> !is_sep(#[trigger] q[i]),
    ensures
        split_spec(p + q) == split_spec(p).update(split_spec(p).len() - 1, split_spec(p).last() + q),
    decreases q.len(),
{
    lemma_split_nonempty(p);
    if q.len() == 0 {
        assert(p + q =~= p);
        assert(split_spec(p).last() + q =~= split_spec(p).last());
        assert(split_spec(p).update(split_spec(p).len() - 1, split_spec(p).last()) =~= split_spec(p));
    } else {
        let q0 = q.drop_last();
        assert forall|i: int| 0 <= i < q0.len() implies !is_sep(#[trigger] q0[i]) by {
            assert(q0[i] == q[i]);
        }
        lemma_split_append_plain(p, q0);
        assert((p + q).drop_last() =~= p + q0);
        assert((p + q).last() == q.last());
        assert(!is_sep(q[q.len() - 1]));
        let sp = split_spec(p);
        let prev = split_spec(p + q0);
        assert(prev.len() == sp.len());
        assert(prev.last() == sp.last() + q0);
        assert((sp.last() + q0).push(q.last()) =~= sp.last() + q);
        assert(prev.update(prev.len() - 1, prev.last().push(q.last())) =~= sp.update(sp.len() - 1, sp.last() + q));
    }
}

/// Splitting `a` SEP `b` SEP `c`, none holding a separator, gives the
/// three parts.
proof fn lemma_split_three(a: Seq<char>, b: Seq<char>, c: Seq<char>, s1: char, s2: char)
    requires
        is_sep(s1),
        is_sep(s2),
        forall|i: int| 0 <= i < a.len() ==> !is_sep(#[trigger] a[i]),
        forall|i: int| 0 <= i < b.len() ==> !is_sep(#[trigger] b[i]),
        forall|i: int| 0 <= i < c.len() ==> !is_sep(#[trigger] c[i]),
    ensures
        split_spec(a + seq![s1] + b + seq![s2] + c) == seq![a, b, c],
{
    let e = Seq::<char>::empty();
    lemma_split_append_plain(e, a);
    assert(e + a =~= a);
    assert(split_spec(e) == seq![e]);
    assert(split_spec(a) =~= seq![a]);
    let t1 = a + seq![s1];
    assert(t1.drop_last() =~= a);
    assert(split_spec(t1) =~= seq![a, e]);
    lemma_split_append_plain(t1, b);
    assert(split_spec(t1 + b) =~= seq![a, b]);
    let t2 = t1 + b + seq![s2];
    assert(t2.drop_last() =~= t1 + b);
    assert(split_spec(t2) =~= seq![a, b, e]);
    lemma_split_append_plain(t2, c);
    assert(split_spec(t2 + c) =~= seq![a, b, c]);
}

/// A component written as the decimal rendering of a value in `1..=4096`
/// is accepted as that value.
proof fn lemma_component_of_decimal(label: Seq<char>, v: nat)
    requires
        1 <= v <= 4096,
    ensures
        component_spec(label, decimal(v)) == Ok::<u32, Seq<char>>(v as u32),
{
    let d = decimal(v);
    lemma_decimal_digits(v);
    assert('0' <= d[0] <= '9');
    assert('0' <= d[d.len() - 1] <= '9');
    lemma_trim_plain(d);
    lemma_decimal_reads_back(v);
}

/// A footprint written as `W x H x D` (each a decimal in `1..=4096`, any
/// of the separators `x`, `X`, `×`) parses back to those dimensions.
pub proof fn law_footprint_round_trip(w: nat, h: nat, d: nat, s1: char, s2: char)
    requires
        1 <= w <= 4096,
        1 <= h <= 4096,
        1 <= d <= 4096,
        is_sep(s1),
        is_sep(s2),
    ensures
        footprint_spec(decimal(w) + seq![s1] + decimal(h) + seq![s2] + decimal(d)) == Ok::<
            Footprint,
            Seq<char>,
        >(Footprint { width: w as u32, height: h as u32, depth: d as u32 }),
{
    lemma_decimal_digits(w);
    lemma_decimal_digits(h);
    lemma_decimal_digits(d);
    lemma_split_three(decimal(w), decimal(h), decimal(d), s1, s2);
    lemma_component_of_decimal("width"@, w);
    lemma_component_of_decimal("height"@, h);
    lemma_component_of_decimal("depth"@, d);
}

impl std::str::FromStr for Footprint {
    type Err = String;

    /// Parses `WxHxD`; see [`Footprint::parse`].
    fn from_str(s: &str) -> (r: Result<Footprint, String>)
        ensures
            match r {
                Ok(f) => footprint_spec(s@) == Ok::<Footprint, Seq<char>>(f),
                Err(e) => footprint_spec(s@) == Err::<Footprint, Seq<char>>(e@),
            },
    {
        Footprint::parse(s)
    }
}

} // verus!
