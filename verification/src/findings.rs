//! The raw shape of a checker response, as the remote service reports it:
//! a list of findings, each with a message, a character offset and length
//! into the submitted text, and candidate replacement strings.

use vstd::prelude::*;

verus! {

/// One candidate replacement string for a finding.
pub struct LTSuggestion {
    pub value: String,
}

/// One raw finding from the checker: `offset` and `length` are character
/// offsets into the exact text that was submitted, and carry no guarantee
/// of validity against the buffer as it stands now.
pub struct LTMatch {
    pub message: String,
    pub offset: usize,
    pub length: usize,
    pub replacements: Vec<LTSuggestion>,
}

/// A whole checker response.
pub struct LTResponse {
    pub matches: Vec<LTMatch>,
}

/// Mathematical image of one raw finding.
pub ghost struct FindingModel {
    pub message: Seq<char>,
    pub offset: int,
    pub length: int,
    pub choices: Seq<Seq<char>>,
}

/// The model of one `LTMatch`.
pub open spec fn finding_model(m: LTMatch) -> FindingModel {
    FindingModel {
        message: m.message@,
        offset: m.offset as int,
        length: m.length as int,
        choices: m.replacements@.map_values(|r: LTSuggestion| r.value@),
    }
}

/// The model of a whole list of raw findings.
pub open spec fn findings_model(ms: Seq<LTMatch>) -> Seq<FindingModel> {
    ms.map_values(|m: LTMatch| finding_model(m))
}

} // verus!
