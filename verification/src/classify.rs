//! The attribute classifier: a fixed table mapping certain style-property
//! names to the synthetic wrapper tag they are promoted to. Names not in the
//! table stay plain attributes on the node's own tag.

use vstd::prelude::*;
use crate::text::str_eq;

verus! {

/// A synthetic wrapper tag that certain style properties are promoted to.
#[derive(Clone, Copy, PartialEq, Eq, Structural, Debug)]
pub enum SyntheticTag {
    Prosody,
    Voice,
    Emphasis,
}

impl SyntheticTag {
    /// The markup tag name of this synthetic tag.
    pub open spec fn spec_name(self) -> Seq<char> {
        match self {
            SyntheticTag::Prosody => "prosody"@,
            SyntheticTag::Voice => "voice"@,
            SyntheticTag::Emphasis => "emphasis"@,
        }
    }

    /// The markup tag name of this synthetic tag.
    pub fn name(self) -> (r: &'static str)
        ensures
            r@ == self.spec_name(),
    {
        match self {
            SyntheticTag::Prosody => "prosody",
            SyntheticTag::Voice => "voice",
            SyntheticTag::Emphasis => "emphasis",
        }
    }
}

/// The classification table: which synthetic tag, if any, a style property of
/// the given name is promoted to. Unknown names map to `None` and stay plain
/// attributes.
pub open spec fn spec_classify(name: Seq<char>) -> Option<SyntheticTag> {
    if name == "pitch"@ || name == "volume"@ {
        Some(SyntheticTag::Prosody)
    } else if name == "voice-family"@ || name == "voice-variant"@ || name == "voice-gender"@ {
        Some(SyntheticTag::Voice)
    } else if name == "level"@ {
        Some(SyntheticTag::Emphasis)
    } else {
        None
    }
}

/// Classifies one style-property name.
pub fn classify(name: &String) -> (r: Option<SyntheticTag>)
    ensures
        r == spec_classify(name@),
{
    if str_eq(name, "pitch") || str_eq(name, "volume") {
        Some(SyntheticTag::Prosody)
    } else if str_eq(name, "voice-family") || str_eq(name, "voice-variant") || str_eq(
        name,
        "voice-gender",
    ) {
        Some(SyntheticTag::Voice)
    } else if str_eq(name, "level") {
        Some(SyntheticTag::Emphasis)
    } else {
        None
    }
}

/// The classifier is a fixed, deterministic table; these are its defining
/// rows on the names the table knows, and an example of a name it does not.
pub proof fn lemma_classify_table()
    ensures
        spec_classify("pitch"@) == Some(SyntheticTag::Prosody),
        spec_classify("volume"@) == Some(SyntheticTag::Prosody),
        spec_classify("voice-family"@) == Some(SyntheticTag::Voice),
        spec_classify("voice-variant"@) == Some(SyntheticTag::Voice),
        spec_classify("voice-gender"@) == Some(SyntheticTag::Voice),
        spec_classify("level"@) == Some(SyntheticTag::Emphasis),
        spec_classify("color"@) == None::<SyntheticTag>,
{
    reveal_strlit("pitch");
    reveal_strlit("volume");
    reveal_strlit("voice-family");
    reveal_strlit("voice-variant");
    reveal_strlit("voice-gender");
    reveal_strlit("level");
    reveal_strlit("color");
    assert("pitch"@.len() == 5);
    assert("volume"@.len() == 6);
    assert("voice-family"@.len() == 12);
    assert("voice-variant"@.len() == 13);
    assert("voice-gender"@.len() == 12);
    assert("level"@.len() == 5);
    assert("color"@.len() == 5);
    assert("pitch"@[0] == 'p');
    assert("level"@[0] == 'l');
    assert("color"@[0] == 'c');
    assert("voice-family"@[6] == 'f');
    assert("voice-gender"@[6] == 'g');
}

} // verus!
