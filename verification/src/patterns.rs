use vstd::prelude::*;

verus! {

#[verifier::external_type_specification]
#[verifier::external_body]
pub struct ExGlobSet(globset::GlobSet);

#[verifier::external_type_specification]
#[verifier::external_body]
pub struct ExRegex(regex::Regex);

/// Whether `pattern` compiles into a matcher: `globset::Glob::new`
/// accepts it and `GlobSetBuilder::build` compiles it. Both answers are
/// functions of the pattern text alone.
pub uninterp spec fn glob_ok(pattern: Seq<char>) -> bool;

/// What `globset`'s compiled matcher for `pattern` answers for `path`.
pub uninterp spec fn glob_matches(pattern: Seq<char>, path: Seq<char>) -> bool;

/// Whether `regex::Regex::new` accepts `pattern`.
pub uninterp spec fn regex_ok(pattern: Seq<char>) -> bool;

/// What `regex`'s unanchored, case-sensitive search for `pattern`
/// answers for `text`.
pub uninterp spec fn regex_matches(pattern: Seq<char>, text: Seq<char>) -> bool;

/// One compiled path glob.
///
/// The matcher is always the one compiled from `pattern`; only
/// `compile_glob` constructs values, so both fields stay private.
pub struct CompiledGlob {
    pattern: String,
    matcher: globset::GlobSet,
}

impl CompiledGlob {
    /// The glob pattern this matcher was compiled from.
    pub closed spec fn spec_pattern(self) -> Seq<char> {
        self.pattern@
    }

    pub fn pattern(&self) -> (r: &String)
        ensures
            r@ == self.spec_pattern(),
    {
        &self.pattern
    }
}

/// One compiled content trigger.
///
/// As with `CompiledGlob`, the regex is always the one compiled from
/// `pattern`, established by `compile_trigger` alone.
pub struct CompiledTrigger {
    pattern: String,
    regex: regex::Regex,
}

impl CompiledTrigger {
    /// The regex pattern this trigger was compiled from.
    pub closed spec fn spec_pattern(self) -> Seq<char> {
        self.pattern@
    }

    pub fn pattern(&self) -> (r: &String)
        ensures
            r@ == self.spec_pattern(),
    {
        &self.pattern
    }
}

/// Relies on `globset::Glob::new` and `GlobSetBuilder::build`, each of
/// which accepts or rejects depending on the pattern text alone, and
/// neither of which panics: a pattern whose compiled form the engine
/// refuses (for instance, one past the regex size limit) comes back as
/// `None`, never as a crash.
#[verifier::external_body]
pub(crate) fn compile_glob(pattern: &String) -> (r: Option<CompiledGlob>)
    ensures
        r is Some <==> glob_ok(pattern@),
        r is Some ==> r.unwrap().spec_pattern() == pattern@,
{
    let glob = match globset::Glob::new(pattern.as_str()) {
        Ok(g) => g,
        Err(_) => {
            return None;
        },
    };
    let mut builder = globset::GlobSetBuilder::new();
    builder.add(glob);
    match builder.build() {
        Ok(set) => Some(CompiledGlob { pattern: pattern.clone(), matcher: set }),
        Err(_) => None,
    }
}

/// Relies on `globset::GlobSet::is_match` on the one-pattern set: the
/// answer is a function of the glob's pattern and the candidate path
/// alone.
#[verifier::external_body]
pub(crate) fn glob_is_match(g: &CompiledGlob, path: &String) -> (r: bool)
    ensures
        r == glob_matches(g.spec_pattern(), path@),
{
    g.matcher.is_match(path.as_str())
}

/// Relies on `regex::Regex::new`, which accepts a pattern depending on
/// its text alone.
#[verifier::external_body]
pub(crate) fn compile_trigger(pattern: &String) -> (r: Option<CompiledTrigger>)
    ensures
        r is Some <==> regex_ok(pattern@),
        r is Some ==> r.unwrap().spec_pattern() == pattern@,
{
    match regex::Regex::new(pattern.as_str()) {
        Ok(re) => Some(CompiledTrigger { pattern: pattern.clone(), regex: re }),
        Err(_) => None,
    }
}

/// Relies on `regex::Regex::is_match`: an unanchored search whose answer
/// is a function of the pattern and the haystack alone.
#[verifier::external_body]
pub(crate) fn trigger_is_match(t: &CompiledTrigger, text: &String) -> (r: bool)
    ensures
        r == regex_matches(t.spec_pattern(), text@),
{
    t.regex.is_match(text.as_str())
}

} // verus!
