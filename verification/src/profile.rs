//! Profiling of the server: how the names of threads are normalised for a
//! report, and which profiling is under way.
use vstd::prelude::*;
use crate::text::{decimal, lemma_decimal_len, push_decimal};

verus! {

/// What the names of periodically dumped heap profiles end in.
pub const HEAP_PROFILE_SUFFIX: &'static str = ".heap";

/// The pattern of the names of periodically dumped heap profiles.
pub const HEAP_PROFILE_REGEX: &'static str = r"^[0-9]{6,6}\.heap$";

/// The pattern that parts the name of a thread from the numbers that follow it.
pub const THREAD_NAME_RE: &'static str = r"^(?P<thread_name>[a-z-_ :]+?)(-?\d)*$";

/// The pattern of the separators that are replaced in the name of a thread.
pub const THREAD_NAME_REPLACE_SEPERATOR_RE: &'static str = r"[_ ]";

/// What the capture group `group` holds when `pattern` is matched on `text`
/// by the crate `regex`; nothing where the pattern does not compile, does not
/// match, or matches without the group.
pub uninterp spec fn regex_capture(pattern: Seq<char>, group: Seq<char>, text: Seq<char>) -> Option<
    Seq<char>,
>;

/// What `text` becomes when the crate `regex` replaces every match of
/// `pattern` in it by `rep`; nothing where the pattern does not compile.
pub uninterp spec fn regex_replace_all(pattern: Seq<char>, text: Seq<char>, rep: Seq<char>) -> Option<
    Seq<char>,
>;

/// Compiles `pattern` with `regex::Regex::new`, matches it on `text` with
/// `Regex::captures` and takes the capture group `group` with
/// `Captures::name`. Nothing is proved of the matching: the contract names
/// the result, which depends on the three strings alone.
#[verifier::external_body]
fn capture_group(pattern: &str, group: &str, text: &str) -> (r: Option<String>)
    ensures
        match r {
            Some(s) => regex_capture(pattern@, group@, text@) == Some(s@),
            None => regex_capture(pattern@, group@, text@) is None,
        },
{
    let re = regex::Regex::new(pattern).ok()?;
    let caps = re.captures(text)?;
    caps.name(group).map(|m| m.as_str().to_owned())
}

/// Compiles `pattern` with `regex::Regex::new` and replaces every match of it
/// in `text` by `rep` with `Regex::replace_all`. Nothing is proved of the
/// replacing: the contract names the result, which depends on the three
/// strings alone.
#[verifier::external_body]
fn replace_all(pattern: &str, text: &str, rep: &str) -> (r: Option<String>)
    ensures
        match r {
            Some(s) => regex_replace_all(pattern@, text@, rep@) == Some(s@),
            None => regex_replace_all(pattern@, text@, rep@) is None,
        },
{
    let re = regex::Regex::new(pattern).ok()?;
    Some(re.replace_all(text, rep).into_owned())
}

/// The name under which a thread is reported, given what was captured of its
/// name and what the replacing of the separators made of that: the result of
/// the replacing; else what was captured; else the name as it is.
pub open spec fn reported_thread_name(
    thread_name: Seq<char>,
    captured: Option<Seq<char>>,
    replaced: Option<Seq<char>>,
) -> Seq<char> {
    match captured {
        Some(name) => match replaced {
            Some(r) => r,
            None => name,
        },
        None => thread_name,
    }
}

pub fn pick_thread_name(thread_name: &str, captured: Option<String>, replaced: Option<String>) -> (name:
    String)
    ensures
        name@ == reported_thread_name(
            thread_name@,
            match captured {
                Some(c) => Some(c@),
                None => None,
            },
            match replaced {
                Some(r) => Some(r@),
                None => None,
            },
        ),
{
    match captured {
        Some(name) => match replaced {
            Some(r) => r,
            None => name,
        },
        None => String::from_str(thread_name),
    }
}

/// The name under which a thread is reported: its name without the numbers
/// at its end, with a hyphen for each underscore and blank. A name that is
/// not of that form is reported as it is.
pub fn extract_thread_name(thread_name: &str) -> (name: String)
    ensures
        name@ == ({
            let captured = regex_capture(THREAD_NAME_RE@, "thread_name"@, thread_name@);
            reported_thread_name(
                thread_name@,
                captured,
                match captured {
                    Some(c) => regex_replace_all(THREAD_NAME_REPLACE_SEPERATOR_RE@, c, "-"@),
                    None => None,
                },
            )
        }),
{
    let captured = capture_group(THREAD_NAME_RE, "thread_name", thread_name);
    let replaced = match &captured {
        Some(c) => replace_all(THREAD_NAME_REPLACE_SEPERATOR_RE, c.as_str(), "-"),
        None => None,
    };
    pick_thread_name(thread_name, captured, replaced)
}

/// Whether heap profiling is under way.
#[derive(Clone, Debug, PartialEq, Eq)]
pub enum HeapProfile {
    /// No heap profiling.
    Inactive,
    /// Heap profiling is under way, and dumps its profiles into this directory.
    Active(String),
    /// Heap profiling was told to stop and has not stopped yet.
    Stopping,
}

/// What to do to deactivate heap profiling.
#[derive(Clone, Copy, Debug, PartialEq, Eq, Structural)]
pub struct Deactivation {
    /// Whether heap profiling was under way.
    pub was_active: bool,
    /// Whether the profiling is to be told to stop.
    pub notify: bool,
}

/// Marks heap profiling as under way, with `dir` for its profiles. There is
/// one heap profiling at a time.
pub fn activate_heap_profile(state: &mut HeapProfile, dir: String) -> (r: Result<(), String>)
    ensures
        match *old(state) {
            HeapProfile::Inactive => r is Ok && *final(state) == HeapProfile::Active(dir),
            _ => (r matches Err(msg) && msg@ == "Already in Heap Profiling"@) && *final(state)
                == *old(state),
        },
{
    match state {
        HeapProfile::Inactive => {
            *state = HeapProfile::Active(dir);
            Ok(())
        },
        _ => Err(String::from_str("Already in Heap Profiling")),
    }
}

/// Deactivates heap profiling: a profiling that is under way is told to
/// stop; one that was told already is taken as stopped.
pub fn deactivate_heap_profile(state: &mut HeapProfile) -> (d: Deactivation)
    ensures
        match *old(state) {
            HeapProfile::Inactive => d == (Deactivation { was_active: false, notify: false })
                && *final(state) == HeapProfile::Inactive,
            HeapProfile::Active(_) => d == (Deactivation { was_active: true, notify: true })
                && *final(state) == HeapProfile::Stopping,
            HeapProfile::Stopping => d == (Deactivation { was_active: true, notify: false })
                && *final(state) == HeapProfile::Inactive,
        },
{
    match state {
        HeapProfile::Inactive => Deactivation { was_active: false, notify: false },
        HeapProfile::Active(_) => {
            *state = HeapProfile::Stopping;
            Deactivation { was_active: true, notify: true }
        },
        HeapProfile::Stopping => {
            *state = HeapProfile::Inactive;
            Deactivation { was_active: true, notify: false }
        },
    }
}

/// The directory into which heap profiling dumps its profiles, while it is
/// under way.
pub fn heap_profiles_dir(state: &HeapProfile) -> (dir: Option<String>)
    ensures
        match *state {
            HeapProfile::Active(d) => dir matches Some(p) && p@ == d@,
            _ => dir is None,
        },
{
    match state {
        HeapProfile::Active(d) => Some(d.clone()),
        _ => None,
    }
}

/// Marks CPU profiling as under way. There is one CPU profiling at a time.
pub fn start_one_cpu_profile(active: &mut bool) -> (r: Result<(), String>)
    ensures
        *final(active),
        if *old(active) {
            r matches Err(msg) && msg@ == "Already in CPU Profiling"@
        } else {
            r is Ok
        },
{
    if *active {
        return Err(String::from_str("Already in CPU Profiling"));
    }
    *active = true;
    Ok(())
}

/// `id` in decimal, with zeros in front up to six digits.
pub open spec fn padded6(id: nat) -> Seq<char> {
    let d = decimal(id);
    if d.len() >= 6 {
        d
    } else {
        Seq::new((6 - d.len()) as nat, |i: int| '0') + d
    }
}

/// The path of the heap profile number `id` in directory `dir`.
pub open spec fn heap_profile_path_of(dir: Seq<char>, id: u64) -> Seq<char> {
    dir + seq!['/'] + padded6(id as nat) + HEAP_PROFILE_SUFFIX@
}

/// The path of the heap profile number `id` in directory `dir`.
pub fn heap_profile_path(dir: &str, id: u64) -> (path: String)
    ensures
        path@ == heap_profile_path_of(dir@, id),
{
    proof {
        reveal_strlit("/");
        reveal_strlit("0");
        reveal_strlit("00");
        reveal_strlit("000");
        reveal_strlit("0000");
        reveal_strlit("00000");
        lemma_decimal_len(id as nat);
        lemma_decimal_len6(id as nat);
    }
    let mut path = String::from_str(dir);
    path.append("/");
    let ghost before = path@;
    if id < 10 {
        path.append("00000");
    } else if id < 100 {
        path.append("0000");
    } else if id < 1000 {
        path.append("000");
    } else if id < 10000 {
        path.append("00");
    } else if id < 100000 {
        path.append("0");
    }
    assert(path@ =~= before + Seq::new((6 - decimal(id as nat).len()) as nat, |i: int| '0') || (
    decimal(id as nat).len() >= 6 && path@ == before));
    push_decimal(&mut path, id);
    assert(path@ =~= before + padded6(id as nat));
    path.append(HEAP_PROFILE_SUFFIX);
    assert(path@ =~= heap_profile_path_of(dir@, id));
    path
}

/// How many digits the numerals from a thousand on have.
pub proof fn lemma_decimal_len6(n: nat)
    ensures
        1000 <= n < 10000 ==> decimal(n).len() == 4,
        10000 <= n < 100000 ==> decimal(n).len() == 5,
        100000 <= n ==> decimal(n).len() >= 6,
    decreases n,
{
    lemma_decimal_len(n);
    if n >= 10 {
        lemma_decimal_len(n / 10);
        lemma_decimal_len6(n / 10);
    }
}

} // verus!
