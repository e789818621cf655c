//! Where each language's labels come from, and what a request asks of the
//! backends.

use crate::error::{Error, ErrorS};
use crate::labels::LabelSource;
use crate::language::{language_code, language_of_code, Language};
use vstd::prelude::*;

verus! {

/// The eSpeak voice a language's labels come from: the private table of
/// language and variety to voice. `None` for languages with their own chain.
pub open spec fn espeak_voice(l: Language) -> Option<Seq<char>> {
    match l {
        Language::English => Some(seq!['e', 'n', '-', 'u', 's']),
        Language::French => Some(seq!['f', 'r', '-', 'f', 'r']),
        Language::SpanishEuro => Some(seq!['e', 's']),
        Language::SpanishLatinAmerica => Some(seq!['e', 's', '-', '4', '1', '9']),
        Language::PortugueseBrazil => Some(seq!['p', 't', '-', 'b', 'r']),
        Language::PortugueseEuro => Some(seq!['p', 't']),
        Language::German => Some(seq!['d', 'e']),
        Language::Italian => Some(seq!['i', 't']),
        Language::Russian => Some(seq!['r', 'u']),
        Language::Albanian => Some(seq!['s', 'q']),
        Language::Arabic => Some(seq!['a', 'r']),
        Language::Armenian => Some(seq!['h', 'y']),
        Language::Cantonese => Some(seq!['y', 'u', 'e']),
        Language::Croatian => Some(seq!['h', 'r']),
        Language::Czech => Some(seq!['c', 's']),
        Language::Danish => Some(seq!['d', 'a']),
        Language::Persian => Some(seq!['f', 'a']),
        Language::Dutch => Some(seq!['n', 'l']),
        Language::Finnish => Some(seq!['f', 'i']),
        Language::HaitianCreole => Some(seq!['h', 't']),
        Language::Hebrew => Some(seq!['h', 'e']),
        Language::Hungarian => Some(seq!['h', 'u']),
        Language::Icelandic => Some(seq!['i', 's']),
        Language::Indonesian => Some(seq!['i', 'd']),
        Language::Irish => Some(seq!['g', 'a']),
        Language::Greek => Some(seq!['e', 'l']),
        Language::Norwegian => Some(seq!['n', 'b']),
        Language::Polish => Some(seq!['p', 'l']),
        Language::Punjabi => Some(seq!['p', 'a']),
        Language::Romanian => Some(seq!['r', 'o']),
        Language::Swahili => Some(seq!['s', 'w']),
        Language::Swedish => Some(seq!['s', 'v']),
        Language::Turkish => Some(seq!['t', 'r']),
        Language::Ukrainian => Some(seq!['u', 'k']),
        Language::Urdu => Some(seq!['u', 'r']),
        Language::Vietnamese => Some(seq!['v', 'i']),
        Language::Japanese => None,
        Language::Korean => None,
        Language::Hindi => None,
        Language::Thai => None,
        Language::ChineseSimplified => None,
    }
}

/// The voice for a language, from the private table.
fn engine_voice(language: Language) -> (r: Option<&'static str>)
    ensures
        match r {
            Some(v) => espeak_voice(language) == Some(v@),
            None => espeak_voice(language) is None,
        },
{
    match language {
        Language::English => {
            proof {
                reveal_strlit("en-us");
            }
            Some("en-us")
        },
        Language::French => {
            proof {
                reveal_strlit("fr-fr");
            }
            Some("fr-fr")
        },
        Language::SpanishEuro => {
            proof {
                reveal_strlit("es");
            }
            Some("es")
        },
        Language::SpanishLatinAmerica => {
            proof {
                reveal_strlit("es-419");
            }
            Some("es-419")
        },
        Language::PortugueseBrazil => {
            proof {
                reveal_strlit("pt-br");
            }
            Some("pt-br")
        },
        Language::PortugueseEuro => {
            proof {
                reveal_strlit("pt");
            }
            Some("pt")
        },
        Language::German => {
            proof {
                reveal_strlit("de");
            }
            Some("de")
        },
        Language::Italian => {
            proof {
                reveal_strlit("it");
            }
            Some("it")
        },
        Language::Russian => {
            proof {
                reveal_strlit("ru");
            }
            Some("ru")
        },
        Language::Albanian => {
            proof {
                reveal_strlit("sq");
            }
            Some("sq")
        },
        Language::Arabic => {
            proof {
                reveal_strlit("ar");
            }
            Some("ar")
        },
        Language::Armenian => {
            proof {
                reveal_strlit("hy");
            }
            Some("hy")
        },
        Language::Cantonese => {
            proof {
                reveal_strlit("yue");
            }
            Some("yue")
        },
        Language::Croatian => {
            proof {
                reveal_strlit("hr");
            }
            Some("hr")
        },
        Language::Czech => {
            proof {
                reveal_strlit("cs");
            }
            Some("cs")
        },
        Language::Danish => {
            proof {
                reveal_strlit("da");
            }
            Some("da")
        },
        Language::Persian => {
            proof {
                reveal_strlit("fa");
            }
            Some("fa")
        },
        Language::Dutch => {
            proof {
                reveal_strlit("nl");
            }
            Some("nl")
        },
        Language::Finnish => {
            proof {
                reveal_strlit("fi");
            }
            Some("fi")
        },
        Language::HaitianCreole => {
            proof {
                reveal_strlit("ht");
            }
            Some("ht")
        },
        Language::Hebrew => {
            proof {
                reveal_strlit("he");
            }
            Some("he")
        },
        Language::Hungarian => {
            proof {
                reveal_strlit("hu");
            }
            Some("hu")
        },
        Language::Icelandic => {
            proof {
                reveal_strlit("is");
            }
            Some("is")
        },
        Language::Indonesian => {
            proof {
                reveal_strlit("id");
            }
            Some("id")
        },
        Language::Irish => {
            proof {
                reveal_strlit("ga");
            }
            Some("ga")
        },
        Language::Greek => {
            proof {
                reveal_strlit("el");
            }
            Some("el")
        },
        Language::Norwegian => {
            proof {
                reveal_strlit("nb");
            }
            Some("nb")
        },
        Language::Polish => {
            proof {
                reveal_strlit("pl");
            }
            Some("pl")
        },
        Language::Punjabi => {
            proof {
                reveal_strlit("pa");
            }
            Some("pa")
        },
        Language::Romanian => {
            proof {
                reveal_strlit("ro");
            }
            Some("ro")
        },
        Language::Swahili => {
            proof {
                reveal_strlit("sw");
            }
            Some("sw")
        },
        Language::Swedish => {
            proof {
                reveal_strlit("sv");
            }
            Some("sv")
        },
        Language::Turkish => {
            proof {
                reveal_strlit("tr");
            }
            Some("tr")
        },
        Language::Ukrainian => {
            proof {
                reveal_strlit("uk");
            }
            Some("uk")
        },
        Language::Urdu => {
            proof {
                reveal_strlit("ur");
            }
            Some("ur")
        },
        Language::Vietnamese => {
            proof {
                reveal_strlit("vi");
            }
            Some("vi")
        },
        Language::Japanese => None,
        Language::Korean => None,
        Language::Hindi => None,
        Language::Thai => None,
        Language::ChineseSimplified => None,
    }
}

/// The label source of each language.
pub open spec fn source_of(l: Language) -> LabelSource {
    match l {
        Language::Hindi => LabelSource::Hindi,
        Language::ChineseSimplified => LabelSource::Mandarin,
        Language::Japanese => LabelSource::Japanese,
        Language::Thai => LabelSource::Thai,
        Language::Korean => LabelSource::Korean,
        _ => LabelSource::Espeak,
    }
}

/// The label source for a language code (ISO 639-3, `zho-hans` for
/// Simplified Mandarin): the built-in chains for Hindi, Mandarin, Japanese,
/// Thai and Korean, eSpeak for any code an eSpeak language has, else none.
pub open spec fn label_source_spec(code: Seq<char>) -> Option<LabelSource> {
    if code == seq!['h', 'i', 'n'] {
        Some(LabelSource::Hindi)
    } else if code == seq!['z', 'h', 'o', '-', 'h', 'a', 'n', 's'] {
        Some(LabelSource::Mandarin)
    } else if code == seq!['j', 'p', 'n'] {
        Some(LabelSource::Japanese)
    } else if code == seq!['t', 'h', 'a'] {
        Some(LabelSource::Thai)
    } else if code == seq!['k', 'o', 'r'] {
        Some(LabelSource::Korean)
    } else if exists|l: Language| espeak_voice(l) is Some && #[trigger] language_code(l) == code {
        Some(LabelSource::Espeak)
    } else {
        None
    }
}

/// Label source for a language code (ISO 639-3, `zho-hans` for Simplified
/// Mandarin). `None` for languages no consumer labels.
pub fn label_source(lang: &str) -> (r: Option<LabelSource>)
    ensures
        r == label_source_spec(lang@),
{
    let cs = crate::text::chars_of(lang);
    if crate::parse::chars_eq(&cs, &['h', 'i', 'n']) {
        return Some(LabelSource::Hindi);
    }
    if crate::parse::chars_eq(&cs, &['z', 'h', 'o', '-', 'h', 'a', 'n', 's']) {
        return Some(LabelSource::Mandarin);
    }
    if crate::parse::chars_eq(&cs, &['j', 'p', 'n']) {
        return Some(LabelSource::Japanese);
    }
    if crate::parse::chars_eq(&cs, &['t', 'h', 'a']) {
        return Some(LabelSource::Thai);
    }
    if crate::parse::chars_eq(&cs, &['k', 'o', 'r']) {
        return Some(LabelSource::Korean);
    }
    match Language::from_code(lang) {
        Some(l) => {
            proof {
                crate::language::law_resolved_code_round_trips(lang@);
            }
            if engine_voice(l).is_some() {
                Some(LabelSource::Espeak)
            } else {
                proof {
                    assert forall|m: Language| espeak_voice(m) is Some implies #[trigger] language_code(m) != lang@ by {
                        crate::language::law_code_resolves_to_language(m);
                    }
                }
                None
            }
        },
        None => {
            proof {
                assert forall|m: Language| espeak_voice(m) is Some implies #[trigger] language_code(m) != lang@ by {
                    crate::language::law_code_resolves_to_language(m);
                }
            }
            None
        },
    }
}

/// Every language has a label source: its own chain for Hindi, Mandarin,
/// Japanese, Thai and Korean, eSpeak (through a voice of the table) for every
/// other.
pub proof fn law_every_language_has_a_label_source(l: Language)
    ensures
        label_source_spec(language_code(l)) == Some(source_of(l)),
        source_of(l) == LabelSource::Espeak <==> espeak_voice(l) is Some,
{
    if espeak_voice(l) is Some {
        assert(language_code(l) == language_code(l));
    }
}

/// The backend work a request needs.
#[derive(Debug, Clone, Copy, PartialEq, Eq)]
pub enum Route {
    /// eSpeak, with this voice.
    Espeak(&'static str),
    /// The Hindi chain (current convention).
    Hindi,
    /// The Mandarin chain.
    Mandarin,
    /// The Japanese front end.
    Japanese,
    /// The Thai backend.
    Thai,
    /// The Korean backend.
    Korean,
}

/// A [`Route`] with its voice as a character sequence.
pub enum RouteS {
    Espeak(Seq<char>),
    Hindi,
    Mandarin,
    Japanese,
    Thai,
    Korean,
}

impl View for Route {
    type V = RouteS;

    open spec fn view(&self) -> RouteS {
        match self {
            Route::Espeak(v) => RouteS::Espeak(v@),
            Route::Hindi => RouteS::Hindi,
            Route::Mandarin => RouteS::Mandarin,
            Route::Japanese => RouteS::Japanese,
            Route::Thai => RouteS::Thai,
            Route::Korean => RouteS::Korean,
        }
    }
}

/// Hangul in any of its blocks: jamo, compatibility jamo, extended jamo,
/// syllables, and halfwidth jamo.
pub open spec fn is_hangul_char(c: char) -> bool {
    ||| '\u{1100}' <= c && c <= '\u{11ff}'
    ||| '\u{3130}' <= c && c <= '\u{318f}'
    ||| '\u{a960}' <= c && c <= '\u{a97f}'
    ||| '\u{ac00}' <= c && c <= '\u{d7af}'
    ||| '\u{d7b0}' <= c && c <= '\u{d7ff}'
    ||| '\u{ffa0}' <= c && c <= '\u{ffdc}'
}

pub open spec fn has_hangul(text: Seq<char>) -> bool {
    exists|i: int| 0 <= i < text.len() && is_hangul_char(#[trigger] text[i])
}

/// Where a request's labels come from, or why it is refused: a language
/// without a label source is unsupported, and English text with Hangul in it
/// is refused rather than routed through eSpeak's Korean.
pub open spec fn route_spec(language: Language, text: Seq<char>) -> Result<RouteS, ErrorS> {
    let code = language_code(language);
    match label_source_spec(code) {
        None => Err(ErrorS::UnsupportedLanguage(code)),
        Some(source) => if code == seq!['e', 'n', 'g'] && has_hangul(text) {
            Err(ErrorS::Unlabelable("english_hangul:request contains Korean text"@))
        } else {
            Ok(
                match source {
                    LabelSource::Espeak => RouteS::Espeak(
                        match espeak_voice(language) {
                            Some(v) => v,
                            None => Seq::empty(),
                        },
                    ),
                    LabelSource::Hindi => RouteS::Hindi,
                    LabelSource::Mandarin => RouteS::Mandarin,
                    LabelSource::Japanese => RouteS::Japanese,
                    LabelSource::Thai => RouteS::Thai,
                    LabelSource::Korean => RouteS::Korean,
                },
            )
        },
    }
}

fn hangul_in(text: &str) -> (r: bool)
    ensures
        r == has_hangul(text@),
{
    let cs = crate::text::chars_of(text);
    let mut i: usize = 0;
    while i < cs.len()
        invariant
            i <= cs@.len(),
            cs@ == text@,
            forall|j: int| 0 <= j < i ==> !is_hangul_char(#[trigger] cs@[j]),
        decreases cs@.len() - i,
    {
        let c = cs[i];
        if ('\u{1100}' <= c && c <= '\u{11ff}') || ('\u{3130}' <= c && c <= '\u{318f}') || ('\u{a960}'
            <= c && c <= '\u{a97f}') || ('\u{ac00}' <= c && c <= '\u{d7af}') || ('\u{d7b0}' <= c && c
            <= '\u{d7ff}') || ('\u{ffa0}' <= c && c <= '\u{ffdc}') {
            assert(is_hangul_char(cs@[i as int]));
            return true;
        }
        i += 1;
    }
    false
}

/// Route a request with an explicit language–variety choice: which backend
/// labels it (and for eSpeak, which voice), or why it is refused.
pub fn phonemize(language: Language, text: &str) -> (r: Result<Route, Error>)
    ensures
        crate::error::result_view(r, |x: Route| x@) == route_spec(language, text@),
{
    let lang = language.code();
    let source = match label_source(lang) {
        Some(s) => s,
        None => return Err(Error::UnsupportedLanguage(String::from_str(lang))),
    };
    let cs = crate::text::chars_of(lang);
    if crate::parse::chars_eq(&cs, &['e', 'n', 'g']) && hangul_in(text) {
        return Err(Error::Unlabelable(String::from_str("english_hangul:request contains Korean text")));
    }
    let r = match source {
        LabelSource::Espeak => {
            proof {
                law_every_language_has_a_label_source(language);
            }
            match engine_voice(language) {
                Some(v) => Route::Espeak(v),
                None => Route::Espeak(""),
            }
        },
        LabelSource::Hindi => Route::Hindi,
        LabelSource::Mandarin => Route::Mandarin,
        LabelSource::Japanese => Route::Japanese,
        LabelSource::Thai => Route::Thai,
        LabelSource::Korean => Route::Korean,
    };
    Ok(r)
}

/// Route a language-only code using its established pronunciation default;
/// a code with no language is unsupported.
pub open spec fn route_lang_spec(code: Seq<char>, text: Seq<char>) -> Result<RouteS, ErrorS> {
    match language_of_code(code) {
        None => Err(ErrorS::UnsupportedLanguage(code)),
        Some(l) => route_spec(l, text),
    }
}

/// Route a language-only code using its established pronunciation default.
/// Use [`phonemize`] to select an explicit regional pronunciation.
pub fn phonemize_lang(lang: &str, text: &str) -> (r: Result<Route, Error>)
    ensures
        crate::error::result_view(r, |x: Route| x@) == route_lang_spec(lang@, text@),
{
    match Language::from_code(lang) {
        Some(l) => phonemize(l, text),
        None => Err(Error::UnsupportedLanguage(String::from_str(lang))),
    }
}


/// This crate's version: label changes require a version bump.
pub const VERSION: &'static str = "0.5.0";

/// The label-compatibility identifier for the given backend digests.
pub open spec fn identity_spec(espeak: Seq<char>, thai: Seq<char>, korean: Seq<char>) -> Seq<char> {
    "g2p/"@ + VERSION@ + " espeak-ng/"@ + espeak + " thai/"@ + thai + " korean/"@ + korean
}

/// Label-compatibility identifier: crate version plus the digests of the
/// eSpeak data and of the pinned Thai and Korean backends. Not a complete
/// build fingerprint; cache keys must also include the request (language
/// and text).
pub fn identity(espeak_digest: &str, thai_digest: &str, korean_digest: &str) -> (r: String)
    ensures
        r@ == identity_spec(espeak_digest@, thai_digest@, korean_digest@),
{
    let mut r = String::from_str("g2p/");
    r.append(VERSION);
    r.append(" espeak-ng/");
    r.append(espeak_digest);
    r.append(" thai/");
    r.append(thai_digest);
    r.append(" korean/");
    r.append(korean_digest);
    r
}

} // verus!
