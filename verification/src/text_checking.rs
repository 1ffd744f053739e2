//! The application's own text-checking state.
//!
//! macOS delivers text replacement, autocorrection, spell checking, smart
//! quotes, smart dashes and link detection through one text-checking pass. The
//! webview's element attributes can only turn the whole pass on or off, so the
//! single substitutions are selected here: WebKit's text checker reads its state
//! from the application's own user defaults the first time it runs, and keeps it
//! for the life of the process.
use vstd::prelude::*;

use crate::views::views;

verus! {

/// A text-checking default: its key, and the value it must hold.
pub struct TextCheckingDefault {
    pub key: &'static str,
    pub enabled: bool,
}

impl View for TextCheckingDefault {
    type V = (Seq<char>, bool);

    open spec fn view(&self) -> (Seq<char>, bool) {
        (self.key@, self.enabled)
    }
}

/// Every text-checking default that the application owns. Shortcuts expand and
/// links are found; nothing else rewrites what was typed, and notes stay free
/// of spelling and grammar marks.
pub open spec fn owned_defaults() -> Seq<(Seq<char>, bool)> {
    seq![
        ("WebAutomaticTextReplacementEnabled"@, true),
        ("WebAutomaticLinkDetectionEnabled"@, true),
        ("WebAutomaticSpellingCorrectionEnabled"@, false),
        ("WebAutomaticQuoteSubstitutionEnabled"@, false),
        ("WebAutomaticDashSubstitutionEnabled"@, false),
        ("WebContinuousSpellCheckingEnabled"@, false),
        ("WebGrammarCheckingEnabled"@, false),
    ]
}

/// Every text-checking default that the application owns, in the order in which
/// they are written. Each is written explicitly: one that is not is seeded from
/// the user's own spelling preferences, which would make notes behave otherwise
/// from machine to machine.
pub fn text_checking_defaults() -> (defaults: Vec<TextCheckingDefault>)
    ensures
        views(defaults@) == owned_defaults(),
{
    let mut defaults: Vec<TextCheckingDefault> = Vec::new();
    defaults.push(
        TextCheckingDefault { key: "WebAutomaticTextReplacementEnabled", enabled: true },
    );
    defaults.push(TextCheckingDefault { key: "WebAutomaticLinkDetectionEnabled", enabled: true });
    defaults.push(
        TextCheckingDefault { key: "WebAutomaticSpellingCorrectionEnabled", enabled: false },
    );
    defaults.push(
        TextCheckingDefault { key: "WebAutomaticQuoteSubstitutionEnabled", enabled: false },
    );
    defaults.push(
        TextCheckingDefault { key: "WebAutomaticDashSubstitutionEnabled", enabled: false },
    );
    defaults.push(
        TextCheckingDefault { key: "WebContinuousSpellCheckingEnabled", enabled: false },
    );
    defaults.push(TextCheckingDefault { key: "WebGrammarCheckingEnabled", enabled: false });
    proof {
        assert(views(defaults@) =~= owned_defaults());
    }
    defaults
}

/// No default is owned twice, and the only ones that are on are the expansion of
/// shortcuts and the finding of links.
pub proof fn law_only_shortcuts_and_links_are_on(i: int, j: int)
    requires
        0 <= i < owned_defaults().len(),
        0 <= j < owned_defaults().len(),
    ensures
        owned_defaults()[i].0 == owned_defaults()[j].0 ==> i == j,
        owned_defaults()[i].1 <==> owned_defaults()[i].0 == "WebAutomaticTextReplacementEnabled"@
            || owned_defaults()[i].0 == "WebAutomaticLinkDetectionEnabled"@,
{
    reveal_strlit("WebAutomaticTextReplacementEnabled");
    assert("WebAutomaticTextReplacementEnabled"@.len() == 34);
    reveal_strlit("WebAutomaticLinkDetectionEnabled");
    assert("WebAutomaticLinkDetectionEnabled"@.len() == 32);
    reveal_strlit("WebAutomaticSpellingCorrectionEnabled");
    assert("WebAutomaticSpellingCorrectionEnabled"@.len() == 37);
    reveal_strlit("WebAutomaticQuoteSubstitutionEnabled");
    assert("WebAutomaticQuoteSubstitutionEnabled"@.len() == 36);
    reveal_strlit("WebAutomaticDashSubstitutionEnabled");
    assert("WebAutomaticDashSubstitutionEnabled"@.len() == 35);
    reveal_strlit("WebContinuousSpellCheckingEnabled");
    assert("WebContinuousSpellCheckingEnabled"@.len() == 33);
    reveal_strlit("WebGrammarCheckingEnabled");
    assert("WebGrammarCheckingEnabled"@.len() == 25);
}

} // verus!
