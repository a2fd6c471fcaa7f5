//! Names, parameters and files of stored projects.

use crate::benchmarks::BenchmarkResult;
use crate::constants::SIXTY;
use crate::double::Double;
use crate::model::Scenario;
use crate::reference::ObservedRecord;
use crate::verification::{CheckStatus, VerificationSummary};
use crate::xt_analysis::XTParams;
use std::time::SystemTime;
use vstd::prelude::*;
use vstd::string::StringExecFns;

verus! {

// ── Names ────────────────────────────────────────────────────────────────────

/// A name is not one of a project, scenario or patch.
#[derive(Debug, Clone, Copy, PartialEq, Eq, Structural)]
pub struct InvalidName;

/// A letter, a digit, or one of `-`, `_`, space and `.`.
pub open spec fn name_char(c: char) -> bool {
    ||| 'a' <= c && c <= 'z'
    ||| 'A' <= c && c <= 'Z'
    ||| '0' <= c && c <= '9'
    ||| c == '-'
    ||| c == '_'
    ||| c == ' '
    ||| c == '.'
}

/// A name that stays within its directory: one to 128 simple characters, and
/// no two dots in a row.
pub open spec fn valid_name(s: Seq<char>) -> bool {
    &&& 1 <= s.len() <= 128
    &&& forall|i: int| 0 <= i < s.len() ==> name_char(#[trigger] s[i])
    &&& forall|i: int, j: int|
        0 <= i && j == i + 1 && j < s.len() ==> !(#[trigger] s[i] == '.' && #[trigger] s[j] == '.')
}

fn is_name_char(c: char) -> (r: bool)
    ensures
        r == name_char(c),
{
    ('a' <= c && c <= 'z') || ('A' <= c && c <= 'Z') || ('0' <= c && c <= '9') || c == '-' || c
        == '_' || c == ' ' || c == '.'
}

fn chars_of(s: &str) -> (r: Vec<char>)
    ensures
        r@ == s@,
{
    let mut r: Vec<char> = Vec::new();
    assert(r@ =~= s@.take(0));
    for c in it: s.chars()
        invariant
            it.seq() == s@,
            r@ == s@.take(it.index() as int),
    {
        r.push(c);
        assert(r@ =~= s@.take(it.index() as int + 1));
    }
    assert(r@ =~= s@);
    r
}

fn text_of(chars: &Vec<char>, n: usize) -> (r: String)
    requires
        n <= chars@.len(),
    ensures
        r@ == chars@.take(n as int),
{
    let mut r: String = String::new();
    let mut i: usize = 0;
    assert(r@ =~= chars@.take(0));
    while i < n
        invariant
            n <= chars@.len(),
            i <= n,
            r@ == chars@.take(i as int),
        decreases n - i,
    {
        r.push(chars[i]);
        i = i + 1;
        assert(r@ =~= chars@.take(i as int));
    }
    r
}

/// Accepts the names of projects, scenarios and patches, and no others: such a
/// name cannot lead out of the directory that it is looked up in.
pub fn validate_name(name: &str) -> (r: Result<(), InvalidName>)
    ensures
        r is Ok <==> valid_name(name@),
{
    let chars: Vec<char> = chars_of(name);
    if chars.len() == 0 || chars.len() > 128 {
        return Err(InvalidName);
    }
    let mut i: usize = 0;
    while i < chars.len()
        invariant
            chars@ == name@,
            i <= chars@.len(),
            forall|k: int| 0 <= k < i ==> name_char(#[trigger] chars@[k]),
            forall|k: int, m: int|
                0 <= k && m == k + 1 && m < i ==> !(#[trigger] chars@[k] == '.'
                    && #[trigger] chars@[m] == '.'),
        decreases chars@.len() - i,
    {
        if !is_name_char(chars[i]) {
            return Err(InvalidName);
        }
        if i > 0 && chars[i] == '.' && chars[i - 1] == '.' {
            assert(chars@[i - 1] == '.' && chars@[i as int] == '.');
            return Err(InvalidName);
        }
        i = i + 1;
    }
    Ok(())
}

/// A valid name names no other directory: it holds no separator, it is not the
/// directory itself, and it does not lead upwards.
pub proof fn law_valid_name_stays_inside(s: Seq<char>)
    requires
        valid_name(s),
    ensures
        !s.contains('/'),
        !s.contains('\\'),
        s != ".."@,
{
    assert forall|i: int| 0 <= i < s.len() implies s[i] != '/' && s[i] != '\\' by {
        assert(name_char(s[i]));
    }
    reveal_strlit("..");
    if s == ".."@ {
        assert(s[0] == '.' && s[1] == '.');
    }
}

// ── Files ────────────────────────────────────────────────────────────────────

/// The file of a patch, below the working directory.
pub fn patch_path(project: &str, name: &str) -> (r: String)
    ensures
        r@ == "scenarios/"@ + project@ + "/patches/"@ + name@ + ".json"@,
{
    let mut r: String = "scenarios/".to_string();
    r.append(project);
    r.append("/patches/");
    r.append(name);
    r.append(".json");
    r
}

/// The text ends with `.json`.
pub open spec fn has_suffix(s: Seq<char>) -> bool {
    s.len() >= 5 && s.skip(s.len() - 5) == ".json"@
}

/// The name that a file is stored under, without the one suffix `.json`.
pub open spec fn stem_of(s: Seq<char>) -> Option<Seq<char>> {
    if has_suffix(s) {
        Some(s.take(s.len() - 5))
    } else {
        None
    }
}

/// The text without any suffix `.json`.
pub open spec fn trimmed(s: Seq<char>) -> Seq<char>
    decreases s.len(),
{
    if has_suffix(s) {
        trimmed(s.take(s.len() - 5))
    } else {
        s
    }
}

fn ends_at(chars: &Vec<char>, n: usize) -> (r: bool)
    requires
        n <= chars@.len(),
    ensures
        r == has_suffix(chars@.take(n as int)),
{
    proof {
        reveal_strlit(".json");
    }
    if n < 5 {
        return false;
    }
    let ghost s = chars@.take(n as int);
    let r: bool = chars[n - 5] == '.' && chars[n - 4] == 'j' && chars[n - 3] == 's' && chars[n - 2]
        == 'o' && chars[n - 1] == 'n';
    proof {
        let t = s.skip(s.len() - 5);
        if r {
            assert(t =~= ".json"@);
        } else {
            assert(t[0] == chars@[n - 5] && t[1] == chars@[n - 4] && t[2] == chars@[n - 3] && t[3]
                == chars@[n - 2] && t[4] == chars@[n - 1]);
        }
    }
    r
}

/// The name that a file is stored under; none for other files.
pub fn file_stem(name: &str) -> (r: Option<String>)
    ensures
        match r {
            Some(t) => stem_of(name@) == Some(t@),
            None => stem_of(name@) is None,
        },
{
    let chars: Vec<char> = chars_of(name);
    let n: usize = chars.len();
    assert(chars@.take(n as int) =~= chars@);
    if ends_at(&chars, n) {
        Some(text_of(&chars, n - 5))
    } else {
        None
    }
}

/// The name of a file without any suffix `.json`.
pub fn trim_suffixes(name: &str) -> (r: String)
    ensures
        r@ == trimmed(name@),
{
    let chars: Vec<char> = chars_of(name);
    let mut n: usize = chars.len();
    assert(chars@.take(n as int) =~= chars@);
    while ends_at(&chars, n)
        invariant
            n <= chars@.len(),
            trimmed(name@) == trimmed(chars@.take(n as int)),
        decreases n,
    {
        proof {
            assert(chars@.take(n as int).take(n - 5) =~= chars@.take(n - 5));
        }
        n = n - 5;
    }
    text_of(&chars, n)
}

/// What is left of a name is the name of no file of its own: trimming again
/// changes nothing.
pub proof fn law_trimming_is_final(s: Seq<char>)
    ensures
        trimmed(trimmed(s)) == trimmed(s),
        !has_suffix(trimmed(s)),
    decreases s.len(),
{
    if has_suffix(s) {
        law_trimming_is_final(s.take(s.len() - 5));
    }
}

// ── Parameters ───────────────────────────────────────────────────────────────

/// What is wrong with the parameters of a request.
#[derive(Debug, Clone, Copy, PartialEq, Eq, Structural)]
pub enum RequestFault {
    /// A bin must be a finite number of at least one second.
    BinSize,
    /// Cells must be finite numbers of at least one.
    Grid,
    /// A record must end after it begins.
    RecordEmpty { record: usize },
    /// A record needs a flow or a speed.
    RecordWithoutValue { record: usize },
}

pub open spec fn at_least_one(x: Double) -> bool {
    x.finite() && x.ge(Double::one())
}

/// Width of a time bin: by default 60 seconds. Tiny widths would need
/// unbounded memory.
pub fn checked_bin_size(bin_size: Option<Double>) -> (r: Result<Double, RequestFault>)
    ensures
        ({
            let b = bin_size.unwrap_or(Double::from_bits(SIXTY));
            r == if at_least_one(b) {
                Ok(b)
            } else {
                Err(RequestFault::BinSize)
            }
        }),
{
    let b: Double = match bin_size {
        Some(b) => b,
        None => Double::from_bits(SIXTY),
    };
    if b.is_finite() && b.ge(Double::one()) {
        Ok(b)
    } else {
        Err(RequestFault::BinSize)
    }
}

/// Cells of a space-time diagram: by default 50 metres and 60 seconds.
pub fn checked_grid(dx_m: Option<Double>, dt_s: Option<Double>) -> (r: Result<
    XTParams,
    RequestFault,
>)
    ensures
        ({
            let dx = dx_m.unwrap_or(Double::from_bits(crate::constants::FIFTY));
            let dt = dt_s.unwrap_or(Double::from_bits(SIXTY));
            match r {
                Ok(p) => at_least_one(dx) && at_least_one(dt) && p.dx_m == dx && p.dt_s == dt,
                Err(e) => !(at_least_one(dx) && at_least_one(dt)) && e == RequestFault::Grid,
            }
        }),
{
    let default: XTParams = XTParams::default();
    let dx: Double = match dx_m {
        Some(x) => x,
        None => default.dx_m,
    };
    let dt: Double = match dt_s {
        Some(t) => t,
        None => default.dt_s,
    };
    if dx.is_finite() && dx.ge(Double::one()) && dt.is_finite() && dt.ge(Double::one()) {
        Ok(XTParams { dx_m: dx, dt_s: dt })
    } else {
        Err(RequestFault::Grid)
    }
}

/// The first fault of records, from place `i` on.
pub open spec fn record_fault_from(records: Seq<ObservedRecord>, i: nat) -> Option<RequestFault>
    decreases records.len() - i,
{
    if i >= records.len() {
        None
    } else {
        let r = records[i as int];
        if !r.t_end.gt(r.t_start) {
            Some(RequestFault::RecordEmpty { record: i as usize })
        } else if r.flow_veh_h is None && r.speed_kmh is None {
            Some(RequestFault::RecordWithoutValue { record: i as usize })
        } else {
            record_fault_from(records, i + 1)
        }
    }
}

/// Accepts observed records that each have a window and a value.
pub fn check_records(records: &Vec<ObservedRecord>) -> (r: Result<(), RequestFault>)
    ensures
        match r {
            Ok(_) => record_fault_from(records@, 0) is None,
            Err(e) => record_fault_from(records@, 0) == Some(e),
        },
{
    let mut i: usize = 0;
    while i < records.len()
        invariant
            i <= records@.len(),
            record_fault_from(records@, 0) == record_fault_from(records@, i as nat),
        decreases records@.len() - i,
    {
        let r: &ObservedRecord = &records[i];
        if !r.t_end.gt(r.t_start) {
            return Err(RequestFault::RecordEmpty { record: i });
        }
        if r.flow_veh_h.is_none() && r.speed_kmh.is_none() {
            return Err(RequestFault::RecordWithoutValue { record: i });
        }
        i = i + 1;
    }
    Ok(())
}

// ── Decisions ────────────────────────────────────────────────────────────────

/// Whether some link has more than one pipe, so that series by pipe say more
/// than those by link.
pub fn has_partition(scenario: &Scenario) -> (r: bool)
    ensures
        r == exists|l: int|
            0 <= l < scenario.links@.len() && (#[trigger] scenario.links@[l]).pipes@.len() > 1,
{
    let mut l: usize = 0;
    while l < scenario.links.len()
        invariant
            l <= scenario.links@.len(),
            forall|k: int| 0 <= k < l ==> (#[trigger] scenario.links@[k]).pipes@.len() <= 1,
        decreases scenario.links@.len() - l,
    {
        if scenario.links[l].pipes.len() > 1 {
            return true;
        }
        l = l + 1;
    }
    false
}

/// How many of the first `n` cases deviate from theory.
pub open spec fn failed_upto(results: Seq<BenchmarkResult>, n: nat) -> nat
    decreases n,
{
    if n == 0 {
        0
    } else {
        failed_upto(results, (n - 1) as nat) + if results[n - 1].status == CheckStatus::Fail {
            1nat
        } else {
            0
        }
    }
}

/// How many cases deviate from theory.
pub fn count_failed(results: &Vec<BenchmarkResult>) -> (r: usize)
    ensures
        r == failed_upto(results@, results@.len()),
{
    let mut r: usize = 0;
    let mut i: usize = 0;
    while i < results.len()
        invariant
            i <= results@.len(),
            r <= i,
            r == failed_upto(results@, i as nat),
        decreases results@.len() - i,
    {
        if results[i].status == CheckStatus::Fail {
            r = r + 1;
        }
        i = i + 1;
    }
    r
}

/// Whether a verification fails: only where a check or a case fails. Warnings,
/// and elements that were not exercised, do not fail it.
pub fn verification_fails(summary: &VerificationSummary, failed_cases: usize) -> (r: bool)
    ensures
        r == (summary.checks_fail > 0 || failed_cases > 0),
{
    summary.checks_fail > 0 || failed_cases > 0
}

// ── Time ─────────────────────────────────────────────────────────────────────

/// `std::time::SystemTime`, a reading of the system clock.
#[verifier::external_type_specification]
#[verifier::external_body]
pub struct ExSystemTime(SystemTime);

/// `SystemTime::now` reads the system clock. Nothing is claimed of what it
/// reads.
#[verifier::external_body]
fn read_clock() -> (t: SystemTime) {
    SystemTime::now()
}

/// `SystemTime::duration_since` gives the time from the Unix epoch to a reading;
/// none where the reading is earlier. Nothing is claimed of its length.
#[verifier::external_body]
fn since_epoch(t: SystemTime) -> (r: Option<u64>) {
    t.duration_since(std::time::UNIX_EPOCH).ok().map(|d| d.as_secs())
}

/// Whole seconds since the epoch; zero for a reading before it.
pub fn seconds_or_zero(since: Option<u64>) -> (r: u64)
    ensures
        r == since.unwrap_or(0),
{
    match since {
        Some(s) => s,
        None => 0,
    }
}

/// The present time in whole seconds since the Unix epoch. It depends on the
/// clock alone, so that no value can be promised.
pub fn unix_now() -> (r: u64) {
    seconds_or_zero(since_epoch(read_clock()))
}

} // verus!
