//! The matcher: a pattern compiled into a dense DFA.
//!
//! The same DFA serves two purposes. It decides whether a whole key matches,
//! and it is the automaton that prunes the walk over a segment's key map.

use vstd::prelude::*;
use vstd::string::*;

verus! {

/// The dense DFA of regex-automata, as a type that is not looked into.
#[verifier::external_type_specification]
#[verifier::external_body]
#[verifier::reject_recursive_types(T)]
pub struct ExDenseDfa<T>(regex_automata::dfa::dense::DFA<T>);

/// The error of a DFA build, as a type that is not looked into.
#[verifier::external_type_specification]
#[verifier::external_body]
pub struct ExBuildError(regex_automata::dfa::dense::BuildError);

/// The identifier of a DFA state, as a type that is not looked into.
#[verifier::external_type_specification]
#[verifier::external_body]
pub struct ExStateId(regex_automata::util::primitives::StateID);

/// The pattern that a DFA was compiled from.
pub uninterp spec fn dfa_pattern(dfa: regex_automata::dfa::dense::DFA<Vec<u32>>) -> Seq<char>;

/// Whether `pattern` compiles into a dense DFA with anchored start states.
pub uninterp spec fn pattern_compiles(pattern: Seq<char>) -> bool;

/// Whether the DFA of `pattern`, started at its anchored start state, finds
/// a match in `haystack`.
pub uninterp spec fn pattern_matches(pattern: Seq<char>, haystack: Seq<u8>) -> bool;

/// A compiled pattern.
pub struct RegexMatcher {
    dfa: regex_automata::dfa::dense::DFA<Vec<u32>>,
}

/// Compiles `pattern` into a dense DFA that has anchored start states only.
///
/// Trusted: calls `dense::Builder::build` of regex-automata with
/// `StartKind::Anchored`. The build is a function of the pattern alone; the
/// contract names its outcome and records the pattern with the DFA.
#[verifier::external_body]
fn compile_dfa(pattern: &str) -> (built: Result<
    regex_automata::dfa::dense::DFA<Vec<u32>>,
    regex_automata::dfa::dense::BuildError,
>)
    ensures
        built is Ok <==> pattern_compiles(pattern@),
        built is Ok ==> dfa_pattern(built->Ok_0) == pattern@,
{
    let config = regex_automata::dfa::dense::Config::new().start_kind(
        regex_automata::dfa::StartKind::Anchored,
    );
    regex_automata::dfa::dense::Builder::new().configure(config).build(pattern)
}

/// Runs an anchored forward search of `haystack` with the DFA of a
/// matcher.
///
/// Trusted: calls `Automaton::try_search_fwd` of regex-automata on an input
/// anchored at its start, and answers whether a match came back. The DFA of
/// a matcher is one that `compile_dfa` built, so the answer is a function of
/// its pattern and the haystack.
#[verifier::external_body]
fn dfa_search(matcher: &RegexMatcher, haystack: &[u8]) -> (found: bool)
    ensures
        found == pattern_matches(dfa_pattern(matcher.dfa), haystack@),
{
    let input = regex_automata::Input::new(haystack).anchored(regex_automata::Anchored::Yes);
    regex_automata::dfa::Automaton::try_search_fwd(&matcher.dfa, &input).map_or(
        false,
        |found| found.is_some(),
    )
}

/// The text of a build error.
///
/// Trusted: formats a `dense::BuildError` with its `Display`. Nothing is
/// claimed of the text.
#[verifier::external_body]
fn build_error_text(error: &regex_automata::dfa::dense::BuildError) -> String {
    format!("{}", error)
}

impl RegexMatcher {
    /// The pattern that the matcher was compiled from.
    pub closed spec fn pattern(&self) -> Seq<char> {
        dfa_pattern(self.dfa)
    }

    /// Compiles `pattern`.
    ///
    /// Succeeds exactly on the patterns that the DFA builder accepts.
    pub fn new(pattern: &str) -> (matcher: Result<
        RegexMatcher,
        regex_automata::dfa::dense::BuildError,
    >)
        ensures
            matcher is Ok <==> pattern_compiles(pattern@),
            matcher is Ok ==> matcher->Ok_0.pattern() == pattern@,
    {
        match compile_dfa(pattern) {
            Ok(dfa) => Ok(RegexMatcher { dfa }),
            Err(error) => Err(error),
        }
    }

    /// Compiles `pattern`, and turns a build error into its text.
    pub fn compile(pattern: &str) -> (matcher: Result<RegexMatcher, String>)
        ensures
            matcher is Ok <==> pattern_compiles(pattern@),
            matcher is Ok ==> matcher->Ok_0.pattern() == pattern@,
    {
        match RegexMatcher::new(pattern) {
            Ok(matcher) => Ok(matcher),
            Err(error) => Err(build_error_text(&error)),
        }
    }

    /// Tells whether the whole of `text` matches: whether the DFA, started
    /// at its anchored start state, reaches a match over the bytes of `text`.
    pub fn is_match(&self, text: &str) -> (found: bool)
        ensures
            found == pattern_matches(self.pattern(), text.spec_bytes()),
    {
        dfa_search(self, text.as_bytes())
    }
}

/// The matcher as the automaton that walks a segment's key map.
///
/// Trusted: each method is a call into regex-automata's `Automaton` for
/// dense DFAs. Nothing is claimed of the single steps; what the walk that
/// uses them reports is named where the walk is made.
impl fst::Automaton for RegexMatcher {
    type State = regex_automata::util::primitives::StateID;

    /// The anchored start state.
    #[verifier::external_body]
    fn start(&self) -> regex_automata::util::primitives::StateID {
        let input = regex_automata::Input::new(b"").anchored(regex_automata::Anchored::Yes);
        regex_automata::dfa::Automaton::start_state_forward(&self.dfa, &input).expect(
            "an anchored DFA has an anchored start state",
        )
    }

    /// Whether a key that ends in `state` matches. The DFA reports a match
    /// one step late, so the state is stepped once more, for the end of the
    /// input, before it is asked.
    #[verifier::external_body]
    fn is_match(&self, state: &regex_automata::util::primitives::StateID) -> bool {
        let last = regex_automata::dfa::Automaton::next_eoi_state(&self.dfa, *state);
        regex_automata::dfa::Automaton::is_match_state(&self.dfa, last)
    }

    /// Whether a match can still be reached from `state`: whether it is not
    /// the dead state.
    #[verifier::external_body]
    fn can_match(&self, state: &regex_automata::util::primitives::StateID) -> bool {
        !regex_automata::dfa::Automaton::is_dead_state(&self.dfa, *state)
    }

    /// The state after `byte`.
    #[verifier::external_body]
    fn accept(
        &self,
        state: &regex_automata::util::primitives::StateID,
        byte: u8,
    ) -> regex_automata::util::primitives::StateID {
        regex_automata::dfa::Automaton::next_state(&self.dfa, *state, byte)
    }
}

} // verus!
