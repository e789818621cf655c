//! Languages and pronunciation varieties, and where their labels come from.

use vstd::prelude::*;

verus! {

/// A supported language and pronunciation variety, selected together.
/// Regional variants share a language code for consumers such as text
/// analysis that do not distinguish pronunciation.
#[derive(Debug, Clone, Copy, PartialEq, Eq, Hash, Structural)]
pub enum Language {
    English,
    French,
    SpanishEuro,
    SpanishLatinAmerica,
    PortugueseBrazil,
    PortugueseEuro,
    German,
    Italian,
    Russian,
    Japanese,
    Korean,
    Hindi,
    Thai,
    ChineseSimplified,
    Albanian,
    Arabic,
    Armenian,
    Cantonese,
    Croatian,
    Czech,
    Danish,
    Persian,
    Dutch,
    Finnish,
    HaitianCreole,
    Hebrew,
    Hungarian,
    Icelandic,
    Indonesian,
    Irish,
    Greek,
    Norwegian,
    Polish,
    Punjabi,
    Romanian,
    Swahili,
    Swedish,
    Turkish,
    Ukrainian,
    Urdu,
    Vietnamese,
}

/// ISO 639-3 code of a language, with `zho-hans` for Simplified Mandarin.
pub open spec fn language_code(l: Language) -> Seq<char> {
    match l {
        Language::English => seq!['e', 'n', 'g'],
        Language::French => seq!['f', 'r', 'a'],
        Language::SpanishEuro => seq!['s', 'p', 'a'],
        Language::SpanishLatinAmerica => seq!['s', 'p', 'a'],
        Language::PortugueseBrazil => seq!['p', 'o', 'r'],
        Language::PortugueseEuro => seq!['p', 'o', 'r'],
        Language::German => seq!['d', 'e', 'u'],
        Language::Italian => seq!['i', 't', 'a'],
        Language::Russian => seq!['r', 'u', 's'],
        Language::Japanese => seq!['j', 'p', 'n'],
        Language::Korean => seq!['k', 'o', 'r'],
        Language::Hindi => seq!['h', 'i', 'n'],
        Language::Thai => seq!['t', 'h', 'a'],
        Language::ChineseSimplified => seq!['z', 'h', 'o', '-', 'h', 'a', 'n', 's'],
        Language::Albanian => seq!['s', 'q', 'i'],
        Language::Arabic => seq!['a', 'r', 'a'],
        Language::Armenian => seq!['h', 'y', 'e'],
        Language::Cantonese => seq!['y', 'u', 'e'],
        Language::Croatian => seq!['h', 'r', 'v'],
        Language::Czech => seq!['c', 'e', 's'],
        Language::Danish => seq!['d', 'a', 'n'],
        Language::Persian => seq!['f', 'a', 's'],
        Language::Dutch => seq!['n', 'l', 'd'],
        Language::Finnish => seq!['f', 'i', 'n'],
        Language::HaitianCreole => seq!['h', 'a', 't'],
        Language::Hebrew => seq!['h', 'e', 'b'],
        Language::Hungarian => seq!['h', 'u', 'n'],
        Language::Icelandic => seq!['i', 's', 'l'],
        Language::Indonesian => seq!['i', 'n', 'd'],
        Language::Irish => seq!['g', 'l', 'e'],
        Language::Greek => seq!['e', 'l', 'l'],
        Language::Norwegian => seq!['n', 'o', 'r'],
        Language::Polish => seq!['p', 'o', 'l'],
        Language::Punjabi => seq!['p', 'a', 'n'],
        Language::Romanian => seq!['r', 'o', 'n'],
        Language::Swahili => seq!['s', 'w', 'a'],
        Language::Swedish => seq!['s', 'w', 'e'],
        Language::Turkish => seq!['t', 'u', 'r'],
        Language::Ukrainian => seq!['u', 'k', 'r'],
        Language::Urdu => seq!['u', 'r', 'd'],
        Language::Vietnamese => seq!['v', 'i', 'e'],
    }
}

/// The language a language-only code resolves to, using the established
/// defaults: European Spanish and Brazilian Portuguese.
pub open spec fn language_of_code(code: Seq<char>) -> Option<Language> {
    if code == seq!['e', 'n', 'g'] {
        Some(Language::English)
    } else if code == seq!['f', 'r', 'a'] {
        Some(Language::French)
    } else if code == seq!['s', 'p', 'a'] {
        Some(Language::SpanishEuro)
    } else if code == seq!['p', 'o', 'r'] {
        Some(Language::PortugueseBrazil)
    } else if code == seq!['d', 'e', 'u'] {
        Some(Language::German)
    } else if code == seq!['i', 't', 'a'] {
        Some(Language::Italian)
    } else if code == seq!['r', 'u', 's'] {
        Some(Language::Russian)
    } else if code == seq!['j', 'p', 'n'] {
        Some(Language::Japanese)
    } else if code == seq!['k', 'o', 'r'] {
        Some(Language::Korean)
    } else if code == seq!['h', 'i', 'n'] {
        Some(Language::Hindi)
    } else if code == seq!['t', 'h', 'a'] {
        Some(Language::Thai)
    } else if code == seq!['z', 'h', 'o', '-', 'h', 'a', 'n', 's'] {
        Some(Language::ChineseSimplified)
    } else if code == seq!['s', 'q', 'i'] {
        Some(Language::Albanian)
    } else if code == seq!['a', 'r', 'a'] {
        Some(Language::Arabic)
    } else if code == seq!['h', 'y', 'e'] {
        Some(Language::Armenian)
    } else if code == seq!['y', 'u', 'e'] {
        Some(Language::Cantonese)
    } else if code == seq!['h', 'r', 'v'] {
        Some(Language::Croatian)
    } else if code == seq!['c', 'e', 's'] {
        Some(Language::Czech)
    } else if code == seq!['d', 'a', 'n'] {
        Some(Language::Danish)
    } else if code == seq!['f', 'a', 's'] {
        Some(Language::Persian)
    } else if code == seq!['n', 'l', 'd'] {
        Some(Language::Dutch)
    } else if code == seq!['f', 'i', 'n'] {
        Some(Language::Finnish)
    } else if code == seq!['h', 'a', 't'] {
        Some(Language::HaitianCreole)
    } else if code == seq!['h', 'e', 'b'] {
        Some(Language::Hebrew)
    } else if code == seq!['h', 'u', 'n'] {
        Some(Language::Hungarian)
    } else if code == seq!['i', 's', 'l'] {
        Some(Language::Icelandic)
    } else if code == seq!['i', 'n', 'd'] {
        Some(Language::Indonesian)
    } else if code == seq!['g', 'l', 'e'] {
        Some(Language::Irish)
    } else if code == seq!['e', 'l', 'l'] {
        Some(Language::Greek)
    } else if code == seq!['n', 'o', 'r'] {
        Some(Language::Norwegian)
    } else if code == seq!['p', 'o', 'l'] {
        Some(Language::Polish)
    } else if code == seq!['p', 'a', 'n'] {
        Some(Language::Punjabi)
    } else if code == seq!['r', 'o', 'n'] {
        Some(Language::Romanian)
    } else if code == seq!['s', 'w', 'a'] {
        Some(Language::Swahili)
    } else if code == seq!['s', 'w', 'e'] {
        Some(Language::Swedish)
    } else if code == seq!['t', 'u', 'r'] {
        Some(Language::Turkish)
    } else if code == seq!['u', 'k', 'r'] {
        Some(Language::Ukrainian)
    } else if code == seq!['u', 'r', 'd'] {
        Some(Language::Urdu)
    } else if code == seq!['v', 'i', 'e'] {
        Some(Language::Vietnamese)
    } else {
        None
    }
}

impl Language {
    /// ISO 639-3 language code, with `zho-hans` for Simplified Mandarin.
    pub fn code(self) -> (r: &'static str)
        ensures
            r@ == language_code(self),
    {
        match self {
            Language::English => {
                proof {
                    reveal_strlit("eng");
                }
                "eng"
            },
            Language::French => {
                proof {
                    reveal_strlit("fra");
                }
                "fra"
            },
            Language::SpanishEuro => {
                proof {
                    reveal_strlit("spa");
                }
                "spa"
            },
            Language::SpanishLatinAmerica => {
                proof {
                    reveal_strlit("spa");
                }
                "spa"
            },
            Language::PortugueseBrazil => {
                proof {
                    reveal_strlit("por");
                }
                "por"
            },
            Language::PortugueseEuro => {
                proof {
                    reveal_strlit("por");
                }
                "por"
            },
            Language::German => {
                proof {
                    reveal_strlit("deu");
                }
                "deu"
            },
            Language::Italian => {
                proof {
                    reveal_strlit("ita");
                }
                "ita"
            },
            Language::Russian => {
                proof {
                    reveal_strlit("rus");
                }
                "rus"
            },
            Language::Japanese => {
                proof {
                    reveal_strlit("jpn");
                }
                "jpn"
            },
            Language::Korean => {
                proof {
                    reveal_strlit("kor");
                }
                "kor"
            },
            Language::Hindi => {
                proof {
                    reveal_strlit("hin");
                }
                "hin"
            },
            Language::Thai => {
                proof {
                    reveal_strlit("tha");
                }
                "tha"
            },
            Language::ChineseSimplified => {
                proof {
                    reveal_strlit("zho-hans");
                }
                "zho-hans"
            },
            Language::Albanian => {
                proof {
                    reveal_strlit("sqi");
                }
                "sqi"
            },
            Language::Arabic => {
                proof {
                    reveal_strlit("ara");
                }
                "ara"
            },
            Language::Armenian => {
                proof {
                    reveal_strlit("hye");
                }
                "hye"
            },
            Language::Cantonese => {
                proof {
                    reveal_strlit("yue");
                }
                "yue"
            },
            Language::Croatian => {
                proof {
                    reveal_strlit("hrv");
                }
                "hrv"
            },
            Language::Czech => {
                proof {
                    reveal_strlit("ces");
                }
                "ces"
            },
            Language::Danish => {
                proof {
                    reveal_strlit("dan");
                }
                "dan"
            },
            Language::Persian => {
                proof {
                    reveal_strlit("fas");
                }
                "fas"
            },
            Language::Dutch => {
                proof {
                    reveal_strlit("nld");
                }
                "nld"
            },
            Language::Finnish => {
                proof {
                    reveal_strlit("fin");
                }
                "fin"
            },
            Language::HaitianCreole => {
                proof {
                    reveal_strlit("hat");
                }
                "hat"
            },
            Language::Hebrew => {
                proof {
                    reveal_strlit("heb");
                }
                "heb"
            },
            Language::Hungarian => {
                proof {
                    reveal_strlit("hun");
                }
                "hun"
            },
            Language::Icelandic => {
                proof {
                    reveal_strlit("isl");
                }
                "isl"
            },
            Language::Indonesian => {
                proof {
                    reveal_strlit("ind");
                }
                "ind"
            },
            Language::Irish => {
                proof {
                    reveal_strlit("gle");
                }
                "gle"
            },
            Language::Greek => {
                proof {
                    reveal_strlit("ell");
                }
                "ell"
            },
            Language::Norwegian => {
                proof {
                    reveal_strlit("nor");
                }
                "nor"
            },
            Language::Polish => {
                proof {
                    reveal_strlit("pol");
                }
                "pol"
            },
            Language::Punjabi => {
                proof {
                    reveal_strlit("pan");
                }
                "pan"
            },
            Language::Romanian => {
                proof {
                    reveal_strlit("ron");
                }
                "ron"
            },
            Language::Swahili => {
                proof {
                    reveal_strlit("swa");
                }
                "swa"
            },
            Language::Swedish => {
                proof {
                    reveal_strlit("swe");
                }
                "swe"
            },
            Language::Turkish => {
                proof {
                    reveal_strlit("tur");
                }
                "tur"
            },
            Language::Ukrainian => {
                proof {
                    reveal_strlit("ukr");
                }
                "ukr"
            },
            Language::Urdu => {
                proof {
                    reveal_strlit("urd");
                }
                "urd"
            },
            Language::Vietnamese => {
                proof {
                    reveal_strlit("vie");
                }
                "vie"
            },
        }
    }

    /// Resolve a language-only input using established defaults:
    /// European Spanish and Brazilian Portuguese.
    pub fn from_code(code: &str) -> (r: Option<Language>)
        ensures
            r == language_of_code(code@),
    {
        let cs = crate::text::chars_of(code);
        if crate::parse::chars_eq(&cs, &['e', 'n', 'g']) {
            return Some(Language::English);
        }
        if crate::parse::chars_eq(&cs, &['f', 'r', 'a']) {
            return Some(Language::French);
        }
        if crate::parse::chars_eq(&cs, &['s', 'p', 'a']) {
            return Some(Language::SpanishEuro);
        }
        if crate::parse::chars_eq(&cs, &['p', 'o', 'r']) {
            return Some(Language::PortugueseBrazil);
        }
        if crate::parse::chars_eq(&cs, &['d', 'e', 'u']) {
            return Some(Language::German);
        }
        if crate::parse::chars_eq(&cs, &['i', 't', 'a']) {
            return Some(Language::Italian);
        }
        if crate::parse::chars_eq(&cs, &['r', 'u', 's']) {
            return Some(Language::Russian);
        }
        if crate::parse::chars_eq(&cs, &['j', 'p', 'n']) {
            return Some(Language::Japanese);
        }
        if crate::parse::chars_eq(&cs, &['k', 'o', 'r']) {
            return Some(Language::Korean);
        }
        if crate::parse::chars_eq(&cs, &['h', 'i', 'n']) {
            return Some(Language::Hindi);
        }
        if crate::parse::chars_eq(&cs, &['t', 'h', 'a']) {
            return Some(Language::Thai);
        }
        if crate::parse::chars_eq(&cs, &['z', 'h', 'o', '-', 'h', 'a', 'n', 's']) {
            return Some(Language::ChineseSimplified);
        }
        if crate::parse::chars_eq(&cs, &['s', 'q', 'i']) {
            return Some(Language::Albanian);
        }
        if crate::parse::chars_eq(&cs, &['a', 'r', 'a']) {
            return Some(Language::Arabic);
        }
        if crate::parse::chars_eq(&cs, &['h', 'y', 'e']) {
            return Some(Language::Armenian);
        }
        if crate::parse::chars_eq(&cs, &['y', 'u', 'e']) {
            return Some(Language::Cantonese);
        }
        if crate::parse::chars_eq(&cs, &['h', 'r', 'v']) {
            return Some(Language::Croatian);
        }
        if crate::parse::chars_eq(&cs, &['c', 'e', 's']) {
            return Some(Language::Czech);
        }
        if crate::parse::chars_eq(&cs, &['d', 'a', 'n']) {
            return Some(Language::Danish);
        }
        if crate::parse::chars_eq(&cs, &['f', 'a', 's']) {
            return Some(Language::Persian);
        }
        if crate::parse::chars_eq(&cs, &['n', 'l', 'd']) {
            return Some(Language::Dutch);
        }
        if crate::parse::chars_eq(&cs, &['f', 'i', 'n']) {
            return Some(Language::Finnish);
        }
        if crate::parse::chars_eq(&cs, &['h', 'a', 't']) {
            return Some(Language::HaitianCreole);
        }
        if crate::parse::chars_eq(&cs, &['h', 'e', 'b']) {
            return Some(Language::Hebrew);
        }
        if crate::parse::chars_eq(&cs, &['h', 'u', 'n']) {
            return Some(Language::Hungarian);
        }
        if crate::parse::chars_eq(&cs, &['i', 's', 'l']) {
            return Some(Language::Icelandic);
        }
        if crate::parse::chars_eq(&cs, &['i', 'n', 'd']) {
            return Some(Language::Indonesian);
        }
        if crate::parse::chars_eq(&cs, &['g', 'l', 'e']) {
            return Some(Language::Irish);
        }
        if crate::parse::chars_eq(&cs, &['e', 'l', 'l']) {
            return Some(Language::Greek);
        }
        if crate::parse::chars_eq(&cs, &['n', 'o', 'r']) {
            return Some(Language::Norwegian);
        }
        if crate::parse::chars_eq(&cs, &['p', 'o', 'l']) {
            return Some(Language::Polish);
        }
        if crate::parse::chars_eq(&cs, &['p', 'a', 'n']) {
            return Some(Language::Punjabi);
        }
        if crate::parse::chars_eq(&cs, &['r', 'o', 'n']) {
            return Some(Language::Romanian);
        }
        if crate::parse::chars_eq(&cs, &['s', 'w', 'a']) {
            return Some(Language::Swahili);
        }
        if crate::parse::chars_eq(&cs, &['s', 'w', 'e']) {
            return Some(Language::Swedish);
        }
        if crate::parse::chars_eq(&cs, &['t', 'u', 'r']) {
            return Some(Language::Turkish);
        }
        if crate::parse::chars_eq(&cs, &['u', 'k', 'r']) {
            return Some(Language::Ukrainian);
        }
        if crate::parse::chars_eq(&cs, &['u', 'r', 'd']) {
            return Some(Language::Urdu);
        }
        if crate::parse::chars_eq(&cs, &['v', 'i', 'e']) {
            return Some(Language::Vietnamese);
        }
        None
    }

    /// English name of the language.
    pub fn name(self) -> (r: &'static str)
        ensures
            r@ == language_name(self),
    {
        match self {
            Language::English => {
                proof {
                    reveal_strlit("English");
                }
                "English"
            },
            Language::French => {
                proof {
                    reveal_strlit("French");
                }
                "French"
            },
            Language::SpanishEuro => {
                proof {
                    reveal_strlit("Spanish");
                }
                "Spanish"
            },
            Language::SpanishLatinAmerica => {
                proof {
                    reveal_strlit("Spanish");
                }
                "Spanish"
            },
            Language::PortugueseBrazil => {
                proof {
                    reveal_strlit("Portuguese");
                }
                "Portuguese"
            },
            Language::PortugueseEuro => {
                proof {
                    reveal_strlit("Portuguese");
                }
                "Portuguese"
            },
            Language::German => {
                proof {
                    reveal_strlit("German");
                }
                "German"
            },
            Language::Italian => {
                proof {
                    reveal_strlit("Italian");
                }
                "Italian"
            },
            Language::Russian => {
                proof {
                    reveal_strlit("Russian");
                }
                "Russian"
            },
            Language::Japanese => {
                proof {
                    reveal_strlit("Japanese");
                }
                "Japanese"
            },
            Language::Korean => {
                proof {
                    reveal_strlit("Korean");
                }
                "Korean"
            },
            Language::Hindi => {
                proof {
                    reveal_strlit("Hindi");
                }
                "Hindi"
            },
            Language::Thai => {
                proof {
                    reveal_strlit("Thai");
                }
                "Thai"
            },
            Language::ChineseSimplified => {
                proof {
                    reveal_strlit("Chinese (Simplified)");
                }
                "Chinese (Simplified)"
            },
            Language::Albanian => {
                proof {
                    reveal_strlit("Albanian");
                }
                "Albanian"
            },
            Language::Arabic => {
                proof {
                    reveal_strlit("Arabic");
                }
                "Arabic"
            },
            Language::Armenian => {
                proof {
                    reveal_strlit("Armenian");
                }
                "Armenian"
            },
            Language::Cantonese => {
                proof {
                    reveal_strlit("Cantonese");
                }
                "Cantonese"
            },
            Language::Croatian => {
                proof {
                    reveal_strlit("Croatian");
                }
                "Croatian"
            },
            Language::Czech => {
                proof {
                    reveal_strlit("Czech");
                }
                "Czech"
            },
            Language::Danish => {
                proof {
                    reveal_strlit("Danish");
                }
                "Danish"
            },
            Language::Persian => {
                proof {
                    reveal_strlit("Persian");
                }
                "Persian"
            },
            Language::Dutch => {
                proof {
                    reveal_strlit("Dutch");
                }
                "Dutch"
            },
            Language::Finnish => {
                proof {
                    reveal_strlit("Finnish");
                }
                "Finnish"
            },
            Language::HaitianCreole => {
                proof {
                    reveal_strlit("Haitian Creole");
                }
                "Haitian Creole"
            },
            Language::Hebrew => {
                proof {
                    reveal_strlit("Hebrew");
                }
                "Hebrew"
            },
            Language::Hungarian => {
                proof {
                    reveal_strlit("Hungarian");
                }
                "Hungarian"
            },
            Language::Icelandic => {
                proof {
                    reveal_strlit("Icelandic");
                }
                "Icelandic"
            },
            Language::Indonesian => {
                proof {
                    reveal_strlit("Indonesian");
                }
                "Indonesian"
            },
            Language::Irish => {
                proof {
                    reveal_strlit("Irish");
                }
                "Irish"
            },
            Language::Greek => {
                proof {
                    reveal_strlit("Greek");
                }
                "Greek"
            },
            Language::Norwegian => {
                proof {
                    reveal_strlit("Norwegian");
                }
                "Norwegian"
            },
            Language::Polish => {
                proof {
                    reveal_strlit("Polish");
                }
                "Polish"
            },
            Language::Punjabi => {
                proof {
                    reveal_strlit("Punjabi");
                }
                "Punjabi"
            },
            Language::Romanian => {
                proof {
                    reveal_strlit("Romanian");
                }
                "Romanian"
            },
            Language::Swahili => {
                proof {
                    reveal_strlit("Swahili");
                }
                "Swahili"
            },
            Language::Swedish => {
                proof {
                    reveal_strlit("Swedish");
                }
                "Swedish"
            },
            Language::Turkish => {
                proof {
                    reveal_strlit("Turkish");
                }
                "Turkish"
            },
            Language::Ukrainian => {
                proof {
                    reveal_strlit("Ukrainian");
                }
                "Ukrainian"
            },
            Language::Urdu => {
                proof {
                    reveal_strlit("Urdu");
                }
                "Urdu"
            },
            Language::Vietnamese => {
                proof {
                    reveal_strlit("Vietnamese");
                }
                "Vietnamese"
            },
        }
    }
}

/// English name of a language.
pub open spec fn language_name(l: Language) -> Seq<char> {
    match l {
        Language::English => seq!['E', 'n', 'g', 'l', 'i', 's', 'h'],
        Language::French => seq!['F', 'r', 'e', 'n', 'c', 'h'],
        Language::SpanishEuro => seq!['S', 'p', 'a', 'n', 'i', 's', 'h'],
        Language::SpanishLatinAmerica => seq!['S', 'p', 'a', 'n', 'i', 's', 'h'],
        Language::PortugueseBrazil => seq!['P', 'o', 'r', 't', 'u', 'g', 'u', 'e', 's', 'e'],
        Language::PortugueseEuro => seq!['P', 'o', 'r', 't', 'u', 'g', 'u', 'e', 's', 'e'],
        Language::German => seq!['G', 'e', 'r', 'm', 'a', 'n'],
        Language::Italian => seq!['I', 't', 'a', 'l', 'i', 'a', 'n'],
        Language::Russian => seq!['R', 'u', 's', 's', 'i', 'a', 'n'],
        Language::Japanese => seq!['J', 'a', 'p', 'a', 'n', 'e', 's', 'e'],
        Language::Korean => seq!['K', 'o', 'r', 'e', 'a', 'n'],
        Language::Hindi => seq!['H', 'i', 'n', 'd', 'i'],
        Language::Thai => seq!['T', 'h', 'a', 'i'],
        Language::ChineseSimplified => seq!['C', 'h', 'i', 'n', 'e', 's', 'e', ' ', '(', 'S', 'i', 'm', 'p', 'l', 'i', 'f', 'i', 'e', 'd', ')'],
        Language::Albanian => seq!['A', 'l', 'b', 'a', 'n', 'i', 'a', 'n'],
        Language::Arabic => seq!['A', 'r', 'a', 'b', 'i', 'c'],
        Language::Armenian => seq!['A', 'r', 'm', 'e', 'n', 'i', 'a', 'n'],
        Language::Cantonese => seq!['C', 'a', 'n', 't', 'o', 'n', 'e', 's', 'e'],
        Language::Croatian => seq!['C', 'r', 'o', 'a', 't', 'i', 'a', 'n'],
        Language::Czech => seq!['C', 'z', 'e', 'c', 'h'],
        Language::Danish => seq!['D', 'a', 'n', 'i', 's', 'h'],
        Language::Persian => seq!['P', 'e', 'r', 's', 'i', 'a', 'n'],
        Language::Dutch => seq!['D', 'u', 't', 'c', 'h'],
        Language::Finnish => seq!['F', 'i', 'n', 'n', 'i', 's', 'h'],
        Language::HaitianCreole => seq!['H', 'a', 'i', 't', 'i', 'a', 'n', ' ', 'C', 'r', 'e', 'o', 'l', 'e'],
        Language::Hebrew => seq!['H', 'e', 'b', 'r', 'e', 'w'],
        Language::Hungarian => seq!['H', 'u', 'n', 'g', 'a', 'r', 'i', 'a', 'n'],
        Language::Icelandic => seq!['I', 'c', 'e', 'l', 'a', 'n', 'd', 'i', 'c'],
        Language::Indonesian => seq!['I', 'n', 'd', 'o', 'n', 'e', 's', 'i', 'a', 'n'],
        Language::Irish => seq!['I', 'r', 'i', 's', 'h'],
        Language::Greek => seq!['G', 'r', 'e', 'e', 'k'],
        Language::Norwegian => seq!['N', 'o', 'r', 'w', 'e', 'g', 'i', 'a', 'n'],
        Language::Polish => seq!['P', 'o', 'l', 'i', 's', 'h'],
        Language::Punjabi => seq!['P', 'u', 'n', 'j', 'a', 'b', 'i'],
        Language::Romanian => seq!['R', 'o', 'm', 'a', 'n', 'i', 'a', 'n'],
        Language::Swahili => seq!['S', 'w', 'a', 'h', 'i', 'l', 'i'],
        Language::Swedish => seq!['S', 'w', 'e', 'd', 'i', 's', 'h'],
        Language::Turkish => seq!['T', 'u', 'r', 'k', 'i', 's', 'h'],
        Language::Ukrainian => seq!['U', 'k', 'r', 'a', 'i', 'n', 'i', 'a', 'n'],
        Language::Urdu => seq!['U', 'r', 'd', 'u'],
        Language::Vietnamese => seq!['V', 'i', 'e', 't', 'n', 'a', 'm', 'e', 's', 'e'],
    }
}

/// Resolving a language's own code gives the language back, except for the
/// regional varieties that are not their code's default (Latin American
/// Spanish, European Portuguese), which resolve to that default.
pub proof fn law_code_resolves_to_language(l: Language)
    ensures
        language_of_code(language_code(l)) == (match l {
            Language::SpanishLatinAmerica => Some(Language::SpanishEuro),
            Language::PortugueseEuro => Some(Language::PortugueseBrazil),
            _ => Some(l),
        }),
{
}

/// Every code that resolves to a language is that language's own code.
pub proof fn law_resolved_code_round_trips(code: Seq<char>)
    requires
        language_of_code(code) is Some,
    ensures
        language_code(language_of_code(code)->0) == code,
{
}

} // verus!
