use vstd::prelude::*;

verus! {

/// Whether `pattern` matches somewhere in `text`; `None` when the pattern does not compile
/// or matching gives up.
pub uninterp spec fn pattern_match(pattern: Seq<char>, text: Seq<char>) -> Option<bool>;

/// Relies on fancy_regex: `Regex::new` reads the pattern, `Regex::is_match` tests the
/// text; an error of either gives `None`. The result depends on the two strings alone.
#[verifier::external_body]
fn matches(pattern: &str, text: &str) -> (r: Option<bool>)
    ensures
        r == pattern_match(pattern@, text@),
{
    fancy_regex::Regex::new(pattern).ok()?.is_match(text).ok()
}

/// A pattern could not be used.
#[derive(Clone, Copy, Debug, PartialEq, Eq, Structural)]
pub struct PatternError;

/// Whether a voice channel whose status is `status` is exempt: its status matches the
/// `exemption` pattern.
pub fn is_exempt(status: Option<&str>, exemption: Option<&str>) -> (r: Result<bool, PatternError>)
    ensures
        r == is_exempt_spec(status, exemption),
{
    match (status, exemption) {
        (Some(s), Some(p)) => match matches(p, s) {
            Some(m) => Ok(m),
            None => Err(PatternError),
        },
        _ => Ok(false),
    }
}

/// Whether a member in bedtime is disconnected from a voice channel whose status is
/// `status`: yes, unless the channel is exempt.
pub fn disconnects(status: Option<&str>, exemption: Option<&str>) -> (r: Result<bool, PatternError>)
    ensures
        r == match is_exempt_spec(status, exemption) {
            Ok(m) => Ok::<bool, PatternError>(!m),
            Err(e) => Err(e),
        },
{
    match is_exempt(status, exemption) {
        Ok(m) => Ok(!m),
        Err(e) => Err(e),
    }
}

pub open spec fn is_exempt_spec(status: Option<&str>, exemption: Option<&str>) -> Result<bool, PatternError> {
    match (status, exemption) {
        (Some(s), Some(p)) => match pattern_match(p@, s@) {
            Some(m) => Ok(m),
            None => Err(PatternError),
        },
        _ => Ok(false),
    }
}

/// The first of `patterns` that matches `text` (its index), or the failing pattern's error.
pub open spec fn first_match(patterns: Seq<Seq<char>>, text: Seq<char>) -> Result<Option<int>, PatternError>
    decreases patterns.len(),
{
    if patterns.len() == 0 {
        Ok(None)
    } else {
        match pattern_match(patterns[0], text) {
            None => Err(PatternError),
            Some(true) => Ok(Some(0)),
            Some(false) => match first_match(patterns.drop_first(), text) {
                Ok(Some(i)) => Ok(Some(i + 1)),
                other => other,
            },
        }
    }
}

/// A found index names one of the patterns.
pub proof fn lemma_first_match_in_range(patterns: Seq<Seq<char>>, text: Seq<char>)
    ensures
        first_match(patterns, text) matches Ok(Some(i)) ==> 0 <= i < patterns.len(),
    decreases patterns.len(),
{
    if patterns.len() > 0 {
        lemma_first_match_in_range(patterns.drop_first(), text);
    }
}

pub open spec fn patterns_view(patterns: Seq<String>) -> Seq<Seq<char>> {
    patterns.map_values(|p: String| p@)
}

/// Index of the first pattern that matches `text`; patterns are tried in order.
pub fn find_first_match(patterns: &Vec<String>, text: &str) -> (r: Result<Option<usize>, PatternError>)
    ensures
        r matches Ok(Some(i)) ==> i < patterns@.len(),
        match r {
            Ok(Some(i)) => first_match(patterns_view(patterns@), text@) == Ok::<Option<int>, PatternError>(
                Some(i as int),
            ),
            Ok(None) => first_match(patterns_view(patterns@), text@) == Ok::<Option<int>, PatternError>(
                None,
            ),
            Err(e) => first_match(patterns_view(patterns@), text@) == Err::<Option<int>, PatternError>(
                e,
            ),
        },
{
    let ghost pv = patterns_view(patterns@);
    let mut i: usize = 0;
    assert(pv.subrange(0, pv.len() as int) =~= pv);
    proof {
        lemma_first_match_in_range(pv, text@);
    }
    while i < patterns.len()
        invariant
            0 <= i <= patterns@.len(),
            pv == patterns_view(patterns@),
            forall|k: int| 0 <= k < i ==> pattern_match(#[trigger] pv[k], text@) == Some(false),
            first_match(pv, text@) == shift(first_match(pv.subrange(i as int, pv.len() as int), text@), i as int),
        decreases patterns@.len() - i,
    {
        let ghost suffix = pv.subrange(i as int, pv.len() as int);
        assert(suffix.drop_first() =~= pv.subrange(i + 1, pv.len() as int));
        assert(suffix[0] == patterns@[i as int]@);
        match matches(patterns[i].as_str(), text) {
            None => {
                return Err(PatternError);
            },
            Some(true) => {
                return Ok(Some(i));
            },
            Some(false) => {},
        }
        i += 1;
    }
    assert(pv.subrange(i as int, pv.len() as int) =~= Seq::<Seq<char>>::empty());
    Ok(None)
}

/// Moves a found index by `n`.
pub open spec fn shift(r: Result<Option<int>, PatternError>, n: int) -> Result<Option<int>, PatternError> {
    match r {
        Ok(Some(i)) => Ok(Some(i + n)),
        other => other,
    }
}

/// Whether an activity triggers its message: the name pattern matches the activity's
/// name, and each optional pattern matches its text (an absent text counts as empty).
pub fn activity_matches(
    name_pattern: &str,
    details_pattern: Option<&str>,
    state_pattern: Option<&str>,
    name: &str,
    details: &str,
    state: &str,
) -> (r: Result<bool, PatternError>)
    ensures
        r == match pattern_match(name_pattern@, name@) {
            None => Err(PatternError),
            Some(false) => Ok(false),
            Some(true) => match optional_match(details_pattern, details@) {
                Err(e) => Err(e),
                Ok(false) => Ok(false),
                Ok(true) => optional_match(state_pattern, state@),
            },
        },
{
    match matches(name_pattern, name) {
        None => Err(PatternError),
        Some(false) => Ok(false),
        Some(true) => match check_optional(details_pattern, details) {
            Err(e) => Err(e),
            Ok(false) => Ok(false),
            Ok(true) => check_optional(state_pattern, state),
        },
    }
}

/// A missing pattern accepts everything.
pub open spec fn optional_match(pattern: Option<&str>, text: Seq<char>) -> Result<bool, PatternError> {
    match pattern {
        None => Ok(true),
        Some(p) => match pattern_match(p@, text) {
            None => Err(PatternError),
            Some(m) => Ok(m),
        },
    }
}

fn check_optional(pattern: Option<&str>, text: &str) -> (r: Result<bool, PatternError>)
    ensures
        r == optional_match(pattern, text@),
{
    match pattern {
        None => Ok(true),
        Some(p) => match matches(p, text) {
            None => Err(PatternError),
            Some(m) => Ok(m),
        },
    }
}

} // verus!
