//! Sampled values as text.

use vstd::prelude::*;

verus! {

/// `serde_json::Value`, any value that JSON can express.
#[verifier::external_type_specification]
#[verifier::external_body]
pub struct ExValue(serde_json::Value);

/// A value sampled from the graph. Texts stand apart because they are shown in
/// quotes.
#[derive(Debug)]
pub enum Sample {
    /// A text.
    Text(String),
    /// A value of any other kind.
    Other(serde_json::Value),
}

/// What a [`Sample`] says.
pub enum SampleView {
    Text(Seq<char>),
    Other(serde_json::Value),
}

impl DeepView for Sample {
    type V = SampleView;

    open spec fn deep_view(&self) -> SampleView {
        match self {
            Sample::Text(text) => SampleView::Text(text@),
            Sample::Other(value) => SampleView::Other(*value),
        }
    }
}

/// The compact JSON text of a sample.
pub uninterp spec fn json_text(sample: SampleView) -> Seq<char>;

/// Whether a text begins and ends with a quote.
pub open spec fn in_quotes(text: Seq<char>) -> bool {
    text.len() >= 2 && text.first() == '"' && text.last() == '"'
}

/// Whether JSON writes the text as it is: it has no quote, no backslash and no
/// control character below the space.
pub open spec fn is_plain(text: Seq<char>) -> bool {
    forall|i: int|
        0 <= i < text.len() ==> (#[trigger] text[i]) != '"' && text[i] != '\\' && text[i] >= ' '
}

/// `to_string` of a `serde_json::Value`: its compact JSON text. That of a text is
/// in quotes, and has nothing but the text in them if none of it is escaped.
#[verifier::external_body]
pub(crate) fn sample_text(sample: &Sample) -> (text: String)
    ensures
        text@ == json_text(sample.deep_view()),
        sample is Text ==> in_quotes(text@),
        sample is Text && is_plain(sample->Text_0@) ==> text@ == seq!['"'] + sample->Text_0@
            + seq!['"'],
{
    match sample {
        Sample::Text(text) => serde_json::Value::String(text.clone()).to_string(),
        Sample::Other(value) => value.to_string(),
    }
}

} // verus!
