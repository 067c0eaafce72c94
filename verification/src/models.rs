//! Data model: supported content sources, line selectors, sections,
//! and the top-level `Lyrics` document description.

use vstd::prelude::*;
use vstd::string::StringSliceAdditionalSpecFns;

verus! {

/// One of the closed set of content sources this tool knows how to
/// fetch lyrics from.  Values are constructed only by exact-name
/// lookup against the registry (`SupportedDomain::new`).
#[derive(Clone, Copy, Debug, PartialEq, Eq, Structural)]
pub enum SupportedDomain {
    Metrolyrics,
    Genius,
    Worshiptogether,
    Azlyrics,
    BethelMusic,
    Hillsong,
}

/// The registered identifier of a source, as the byte sequence that
/// must appear as the host name of a URL.
pub open spec fn domain_bytes(d: SupportedDomain) -> Seq<u8> {
    match d {
        SupportedDomain::Metrolyrics => seq![
            'm' as u8, 'e' as u8, 't' as u8, 'r' as u8, 'o' as u8, 'l' as u8,
            'y' as u8, 'r' as u8, 'i' as u8, 'c' as u8, 's' as u8,
        ],
        SupportedDomain::Genius => seq![
            'g' as u8, 'e' as u8, 'n' as u8, 'i' as u8, 'u' as u8, 's' as u8,
        ],
        SupportedDomain::Worshiptogether => seq![
            'w' as u8, 'o' as u8, 'r' as u8, 's' as u8, 'h' as u8, 'i' as u8,
            'p' as u8, 't' as u8, 'o' as u8, 'g' as u8, 'e' as u8, 't' as u8,
            'h' as u8, 'e' as u8, 'r' as u8,
        ],
        SupportedDomain::Azlyrics => seq![
            'a' as u8, 'z' as u8, 'l' as u8, 'y' as u8, 'r' as u8, 'i' as u8,
            'c' as u8, 's' as u8,
        ],
        SupportedDomain::BethelMusic => seq![
            'b' as u8, 'e' as u8, 't' as u8, 'h' as u8, 'e' as u8, 'l' as u8,
            'm' as u8, 'u' as u8, 's' as u8, 'i' as u8, 'c' as u8,
        ],
        SupportedDomain::Hillsong => seq![
            'h' as u8, 'i' as u8, 'l' as u8, 'l' as u8, 's' as u8, 'o' as u8,
            'n' as u8, 'g' as u8,
        ],
    }
}

/// The closed registry: which source, if any, a candidate name denotes.
pub open spec fn domain_of(name: Seq<u8>) -> Option<SupportedDomain> {
    if name == domain_bytes(SupportedDomain::Metrolyrics) {
        Some(SupportedDomain::Metrolyrics)
    } else if name == domain_bytes(SupportedDomain::Genius) {
        Some(SupportedDomain::Genius)
    } else if name == domain_bytes(SupportedDomain::Worshiptogether) {
        Some(SupportedDomain::Worshiptogether)
    } else if name == domain_bytes(SupportedDomain::Azlyrics) {
        Some(SupportedDomain::Azlyrics)
    } else if name == domain_bytes(SupportedDomain::BethelMusic) {
        Some(SupportedDomain::BethelMusic)
    } else if name == domain_bytes(SupportedDomain::Hillsong) {
        Some(SupportedDomain::Hillsong)
    } else {
        None
    }
}

impl SupportedDomain {
    /// Looks a candidate name up in the closed registry.
    pub fn new(domain: &str) -> (r: Option<Self>)
        ensures
            r == domain_of(domain.spec_bytes()),
    {
        domain_from_bytes(domain.as_bytes())
    }
}

/// Exact-bytes lookup against the closed registry.
pub fn domain_from_bytes(name: &[u8]) -> (r: Option<SupportedDomain>)
    ensures
        r == domain_of(name@),
{
    let metrolyrics: [u8; 11] = [
        'm' as u8, 'e' as u8, 't' as u8, 'r' as u8, 'o' as u8, 'l' as u8,
        'y' as u8, 'r' as u8, 'i' as u8, 'c' as u8, 's' as u8,
    ];
    let genius: [u8; 6] = ['g' as u8, 'e' as u8, 'n' as u8, 'i' as u8, 'u' as u8, 's' as u8];
    let worshiptogether: [u8; 15] = [
        'w' as u8, 'o' as u8, 'r' as u8, 's' as u8, 'h' as u8, 'i' as u8,
        'p' as u8, 't' as u8, 'o' as u8, 'g' as u8, 'e' as u8, 't' as u8,
        'h' as u8, 'e' as u8, 'r' as u8,
    ];
    let azlyrics: [u8; 8] = [
        'a' as u8, 'z' as u8, 'l' as u8, 'y' as u8, 'r' as u8, 'i' as u8,
        'c' as u8, 's' as u8,
    ];
    let bethelmusic: [u8; 11] = [
        'b' as u8, 'e' as u8, 't' as u8, 'h' as u8, 'e' as u8, 'l' as u8,
        'm' as u8, 'u' as u8, 's' as u8, 'i' as u8, 'c' as u8,
    ];
    let hillsong: [u8; 8] = [
        'h' as u8, 'i' as u8, 'l' as u8, 'l' as u8, 's' as u8, 'o' as u8,
        'n' as u8, 'g' as u8,
    ];
    if eq_bytes(name, metrolyrics.as_slice()) {
        Some(SupportedDomain::Metrolyrics)
    } else if eq_bytes(name, genius.as_slice()) {
        Some(SupportedDomain::Genius)
    } else if eq_bytes(name, worshiptogether.as_slice()) {
        Some(SupportedDomain::Worshiptogether)
    } else if eq_bytes(name, azlyrics.as_slice()) {
        Some(SupportedDomain::Azlyrics)
    } else if eq_bytes(name, bethelmusic.as_slice()) {
        Some(SupportedDomain::BethelMusic)
    } else if eq_bytes(name, hillsong.as_slice()) {
        Some(SupportedDomain::Hillsong)
    } else {
        None
    }
}

/// Domain closure: the registry accepts a candidate name exactly when
/// it is byte-identical to one of the registered identifiers, and the
/// source it returns is the one so named.  Any other name is turned
/// away without a crash: `domain_of` is total.
pub proof fn lemma_domain_closure(name: Seq<u8>)
    ensures
        (domain_of(name) is Some) <==> (exists|d: SupportedDomain|
            #[trigger] domain_bytes(d) == name),
        forall|d: SupportedDomain| domain_of(name) == Some(d) ==> domain_bytes(d) == name,
{
    if domain_of(name) is Some {
        let d = domain_of(name).unwrap();
        assert(domain_bytes(d) == name);
    } else {
        assert forall|d: SupportedDomain| #[trigger] domain_bytes(d) != name by {
            match d {
                SupportedDomain::Metrolyrics => {},
                SupportedDomain::Genius => {},
                SupportedDomain::Worshiptogether => {},
                SupportedDomain::Azlyrics => {},
                SupportedDomain::BethelMusic => {},
                SupportedDomain::Hillsong => {},
            }
        }
    }
}

/// The registered identifier of a source, as readable text.
pub open spec fn domain_chars(d: SupportedDomain) -> Seq<char> {
    match d {
        SupportedDomain::Metrolyrics => "metrolyrics"@,
        SupportedDomain::Genius => "genius"@,
        SupportedDomain::Worshiptogether => "worshiptogether"@,
        SupportedDomain::Azlyrics => "azlyrics"@,
        SupportedDomain::BethelMusic => "bethelmusic"@,
        SupportedDomain::Hillsong => "hillsong"@,
    }
}

/// The guidance message that lists every registered identifier.
pub open spec fn spec_variants_message() -> Seq<char> {
    "Use a supported domain: "@ + "[metrolyrics.com] "@ + "[genius.com] "@
        + "[worshiptogether.com] "@ + "[azlyrics.com] "@ + "[bethelmusic.com] "@
        + "[hillsong.com] "@
}

impl SupportedDomain {
    /// The identifier this value was registered under.
    pub fn name(&self) -> (r: String)
        ensures
            r@ == domain_chars(*self),
    {
        match self {
            SupportedDomain::Metrolyrics => "metrolyrics".to_owned(),
            SupportedDomain::Genius => "genius".to_owned(),
            SupportedDomain::Worshiptogether => "worshiptogether".to_owned(),
            SupportedDomain::Azlyrics => "azlyrics".to_owned(),
            SupportedDomain::BethelMusic => "bethelmusic".to_owned(),
            SupportedDomain::Hillsong => "hillsong".to_owned(),
        }
    }

    /// A user-facing message enumerating every registered source, in
    /// declaration order.
    pub fn print_variants() -> (r: String)
        ensures
            r@ == spec_variants_message(),
    {
        let mut variants: String = "Use a supported domain: ".to_owned();
        crate::text::append_str(&mut variants, "[metrolyrics.com] ");
        crate::text::append_str(&mut variants, "[genius.com] ");
        crate::text::append_str(&mut variants, "[worshiptogether.com] ");
        crate::text::append_str(&mut variants, "[azlyrics.com] ");
        crate::text::append_str(&mut variants, "[bethelmusic.com] ");
        crate::text::append_str(&mut variants, "[hillsong.com] ");
        variants
    }
}

/// A section's rule for which source-line indices belong to it:
/// either one index or an inclusive range of indices.  A range whose
/// low bound exceeds its high bound is legal and matches no index.
#[derive(Clone, Copy, Debug, PartialEq, Eq, Structural)]
pub enum RangeOrNumber {
    Number(u32),
    Range(u32, u32),
}

impl RangeOrNumber {
    /// Builds a selector from a parsed first number and an optional
    /// parsed second number.
    pub fn which(variant: (u32, Option<u32>)) -> (r: Self)
        ensures
            r == match variant.1 {
                None => RangeOrNumber::Number(variant.0),
                Some(high) => RangeOrNumber::Range(variant.0, high),
            },
    {
        match variant {
            (num, None) => RangeOrNumber::Number(num),
            (num, Some(range)) => RangeOrNumber::Range(num, range),
        }
    }
}

/// A named group of lyric lines: a header and the selector that says
/// which enumerated line indices belong under it.
#[derive(Debug)]
pub struct LyricSection {
    pub header: String,
    pub words: RangeOrNumber,
}

impl LyricSection {
    pub fn new(header: String, words: RangeOrNumber) -> (r: Self)
        ensures
            r.header == header,
            r.words == words,
    {
        LyricSection { header, words }
    }
}

/// A whole document description: optional title and author plus the
/// ordered list of sections to emit.
#[derive(Debug)]
pub struct Lyrics {
    pub song_name: Option<String>,
    pub author: Option<String>,
    pub sections: Vec<LyricSection>,
}

impl Lyrics {
    pub fn new(song_name: Option<String>, author: Option<String>, sections: Vec<LyricSection>) -> (r: Self)
        ensures
            r.song_name == song_name,
            r.author == author,
            r.sections == sections,
    {
        Self { song_name, author, sections }
    }
}

/// An input that does not conform to the section grammar or to the
/// URL grammar.  `fragment` is the offending input fragment.
#[derive(Debug)]
pub struct GrammarError {
    pub fragment: Vec<u8>,
}

/// Byte-sequence equality.
fn eq_bytes(a: &[u8], b: &[u8]) -> (r: bool)
    ensures
        r == (a@ == b@),
{
    if a.len() != b.len() {
        assert(a@ != b@) by {
            assert(a@.len() != b@.len());
        }
        return false;
    }
    let n: usize = a.len();
    let mut i: usize = 0;
    while i < n
        invariant
            n == a@.len() == b@.len(),
            i <= n,
            forall|k: int| 0 <= k < i ==> a@[k] == b@[k],
        decreases n - i,
    {
        if a[i] != b[i] {
            return false;
        }
        i += 1;
    }
    proof {
        assert(a@ =~= b@);
    }
    true
}

} // verus!
