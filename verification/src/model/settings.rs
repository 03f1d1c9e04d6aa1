//! Settings as text.
use vstd::prelude::*;
use vstd::string::StrSliceExecFns;

verus! {

/// The number that decimal digits write.
pub open spec fn decimal(s: Seq<char>) -> Option<int>
    decreases s.len(),
{
    if s.len() == 0 {
        Some(0)
    } else {
        match decimal(s.drop_last()) {
            Some(v) if '0' <= s.last() <= '9' => Some(v * 10 + (s.last() as int - '0' as int)),
            _ => None,
        }
    }
}

/// The number that a text writes, if it is at most `max`: decimal digits, which
/// may follow a plus sign.
pub open spec fn number(s: Seq<char>, max: int) -> Option<int> {
    let digits = if s.len() > 0 && s[0] == '+' {
        s.skip(1)
    } else {
        s
    };
    match decimal(digits) {
        Some(v) if digits.len() > 0 && v <= max => Some(v),
        _ => None,
    }
}

/// A number is at least what a prefix of its digits writes, and no number has
/// a prefix that is none.
proof fn lemma_prefix(s: Seq<char>, n: int)
    requires
        0 <= n <= s.len(),
    ensures
        decimal(s) matches Some(v) ==> decimal(s.take(n)) matches Some(w) && 0 <= w <= v,
    decreases s.len(),
{
    if n < s.len() {
        lemma_prefix(s.drop_last(), n);
        assert(s.drop_last().take(n) =~= s.take(n));
    } else {
        assert(s.take(n) =~= s);
        if s.len() > 0 {
            lemma_prefix(s.drop_last(), n - 1);
        }
    }
}

/// Reads a number that is at most `max`.
pub fn parse(s: &String, max: u64) -> (r: Option<u64>)
    ensures
        match number(s@, max as int) {
            Some(v) => r is Some && r->0 == v,
            None => r is None,
        },
{
    let text: &str = s.as_str();
    let n: usize = text.unicode_len();
    let mut start: usize = 0;
    if n > 0 && text.get_char(0) == '+' {
        start = 1;
    }
    let ghost digits = s@.skip(start as int);
    assert(s@.skip(0) =~= s@);
    if start == n {
        return None;
    }
    let mut value: u64 = 0;
    let mut i: usize = start;
    while i < n
        invariant
            start <= i <= n,
            n == s@.len(),
            text@ == s@,
            digits == s@.skip(start as int),
            digits.len() > 0,
            digits == (if s@.len() > 0 && s@[0] == '+' {
                s@.skip(1)
            } else {
                s@
            }),
            decimal(digits.take(i - start)) == Some(value as int),
            value <= max,
        decreases n - i,
    {
        let c: char = text.get_char(i);
        let ghost next = digits.take(i + 1 - start);
        proof {
            assert(next.drop_last() =~= digits.take(i - start));
            assert(next.last() == c);
            lemma_prefix(digits, i + 1 - start);
        }
        if c < '0' || c > '9' {
            return None;
        }
        let digit: u64 = (c as u32 - '0' as u32) as u64;
        if value > (max / 10) {
            assert(value * 10 > max);
            return None;
        }
        let tens: u64 = value * 10;
        if digit > max - tens {
            return None;
        }
        value = tens + digit;
        i += 1;
    }
    assert(digits.take(n - start) =~= digits);
    Some(value)
}

/// What the environment holds, one text per variable that is set.
pub struct Settings {
    /// `LOOM_CHECKPOINT_INTERVAL`
    pub checkpoint_interval: Option<String>,
    /// `LOOM_MAX_BRANCHES`
    pub max_branches: Option<String>,
    /// `LOOM_LOCATION`
    pub location: Option<String>,
    /// `LOOM_LOG`
    pub log: Option<String>,
    /// `LOOM_MAX_DURATION`, in seconds
    pub max_duration: Option<String>,
    /// `LOOM_MAX_PERMUTATIONS`
    pub max_permutations: Option<String>,
    /// `LOOM_MAX_PREEMPTIONS`
    pub preemption_bound: Option<String>,
    /// `LOOM_CHECKPOINT_FILE`
    pub checkpoint_file: Option<String>,
    /// `LOOM_THREADS`
    pub threads: Option<String>,
    /// `LOOM_SPLIT_DEPTH`
    pub split_depth: Option<String>,
    /// `LOOM_PROBE_MS`, in milliseconds
    pub probe: Option<String>,
    /// `LOOM_REUSE_OBJECTS`
    pub reuse_objects: Option<String>,
    /// `LOOM_SLEEP_SETS`
    pub sleep_sets: Option<String>,
}

/// The variable whose value is invalid.
#[derive(Debug, Clone, Copy, PartialEq, Eq, Structural)]
pub enum Invalid {
    CheckpointInterval,
    MaxBranches,
    MaxDuration,
    MaxPermutations,
    MaxPreemptions,
    Threads,
    SplitDepth,
    Probe,
}

/// The text of a setting.
pub open spec fn text(v: Option<String>) -> Option<Seq<char>> {
    match v {
        Some(s) => Some(s@),
        None => None,
    }
}

/// A number that may be set: `Err` where the text is none.
pub open spec fn setting(v: Option<String>, max: int) -> Result<Option<int>, ()> {
    match v {
        None => Ok(None),
        Some(s) => match number(s@, max) {
            Some(n) => Ok(Some(n)),
            None => Err(()),
        },
    }
}

/// A switch that is on unless it is set to `0`.
pub open spec fn enabled(v: Option<String>) -> bool {
    match v {
        None => true,
        Some(s) => !(s@.len() == 1 && s@[0] == '0'),
    }
}

/// Reads a number that may be set.
pub fn read(v: &Option<String>, max: u64, invalid: Invalid) -> (r: Result<Option<u64>, Invalid>)
    ensures
        match setting(*v, max as int) {
            Ok(None) => r == Ok::<Option<u64>, Invalid>(None),
            Ok(Some(n)) => r matches Ok(Some(m)) && m == n,
            Err(_) => r == Err::<Option<u64>, Invalid>(invalid),
        },
{
    match v {
        None => Ok(None),
        Some(s) => match parse(s, max) {
            Some(n) => Ok(Some(n)),
            None => Err(invalid),
        },
    }
}

/// Reads a switch that is on unless it is set to `0`.
pub fn is_enabled(v: &Option<String>) -> (r: bool)
    ensures
        r == enabled(*v),
{
    match v {
        None => true,
        Some(s) => {
            let text: &str = s.as_str();
            !(text.unicode_len() == 1 && text.get_char(0) == '0')
        },
    }
}

/// How a number is written: a digit that follows is worth one, and all before
/// it ten times as much. A text with anything but digits in it writes none.
pub proof fn digits_follow_one_another(s: Seq<char>, c: char)
    ensures
        decimal(s) matches Some(v) ==> ('0' <= c <= '9' ==> decimal(s.push(c)) == Some(
            v * 10 + (c as int - 48),
        )),
        !('0' <= c <= '9') ==> decimal(s.push(c)) is None,
        decimal(s) is None ==> decimal(s.push(c)) is None,
        decimal(Seq::empty()) == Some(0int),
{
    assert(s.push(c).drop_last() =~= s);
}

/// A number that is set is read where it is not too large, with or without a
/// plus sign before it, and no text without a digit is one.
pub proof fn a_sign_changes_nothing(digits: Seq<char>, max: int)
    ensures
        digits.len() > 0 && digits[0] != '+' ==> number(seq!['+'] + digits, max) == number(
            digits,
            max,
        ),
        number(Seq::empty(), max) is None,
        number(seq!['+'], max) is None,
        number(digits, max) matches Some(v) ==> v <= max,
        digits.len() > 0 && digits[0] != '+' ==> (decimal(digits) matches Some(v) ==> (v <= max
            ==> number(digits, max) == Some(v))),
{
    let signed = seq!['+'] + digits;
    assert(signed.skip(1) =~= digits);
    assert(seq!['+'].skip(1) =~= Seq::<char>::empty());
}

/// A switch is on, set or not, unless the text is exactly `0`.
pub proof fn a_switch_is_off_only_at_zero(v: Option<String>)
    ensures
        enabled(v) <==> text(v) != Some(seq!['0']),
{
    if let Some(s) = v {
        if s@.len() == 1 && s@[0] == '0' {
            assert(s@ =~= seq!['0']);
        }
    }
}

/// A setting that is absent is no error, one that writes a number is that
/// number, and any other text is an error.
pub proof fn a_setting_is_absent_or_a_number(v: Option<String>, max: int)
    ensures
        v is None ==> setting(v, max) == Ok::<Option<int>, ()>(None),
        v matches Some(s) ==> (number(s@, max) matches Some(n) ==> setting(v, max) == Ok::<
            Option<int>,
            (),
        >(Some(n))),
        v matches Some(s) ==> (number(s@, max) is None ==> setting(v, max) is Err),
{
}

} // verus!
