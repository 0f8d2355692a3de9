//! Guessing the character set of a chunk (chardetng) and decoding it (encoding_rs).
use vstd::prelude::*;

verus! {

#[verifier::external_type_specification]
#[verifier::external_body]
pub struct ExEncodingDetector(chardetng::EncodingDetector);

#[verifier::external_type_specification]
#[verifier::external_body]
pub struct ExEncoding(encoding_rs::Encoding);

/// The bytes fed to a `chardetng::EncodingDetector` so far.
pub uninterp spec fn detector_input(d: chardetng::EncodingDetector) -> Seq<u8>;

/// Whether the end of the stream has been fed to a `chardetng::EncodingDetector`.
pub uninterp spec fn detector_closed(d: chardetng::EncodingDetector) -> bool;

/// Whether a `chardetng::EncodingDetector` was made to allow ISO-2022-JP.
pub uninterp spec fn detector_allows_iso_2022_jp(d: chardetng::EncodingDetector) -> bool;

/// The name of the encoding that `chardetng::EncodingDetector::guess` returns for a
/// detector fed `input` (ended or not), made with or without ISO-2022-JP, given the
/// top-level domain and whether UTF-8 may be guessed.
pub uninterp spec fn guessed_charset(
    input: Seq<u8>,
    closed: bool,
    allow_iso_2022_jp: bool,
    tld: Option<Seq<u8>>,
    allow_utf8: bool,
) -> Seq<char>;

/// The text that `encoding_rs::Encoding::decode` makes of `bytes` with the encoding
/// named `charset`.
pub uninterp spec fn decoded_text(charset: Seq<char>, bytes: Seq<u8>) -> Seq<char>;

/// Whether the guess may be ISO-2022-JP (`chardetng::Iso2022JpDetection`).
pub enum Iso2022Jp {
    Allow,
    Deny,
}

/// Whether the guess may be UTF-8 (`chardetng::Utf8Detection`).
pub enum Utf8Guess {
    Allow,
    Deny,
}

/// An encoding that `guess_charset` returned, with its name. Only `guess_charset`
/// makes one, so the name is always that of the encoding.
pub struct Charset {
    encoding: &'static encoding_rs::Encoding,
    name: &'static str,
}

impl Charset {
    /// The name of the encoding.
    pub closed spec fn label(&self) -> Seq<char> {
        self.name@
    }
}

/// Calls `chardetng::EncodingDetector::new`: a detector that has been fed nothing.
#[verifier::external_body]
pub(crate) fn new_detector(iso_2022_jp: Iso2022Jp) -> (d: chardetng::EncodingDetector)
    ensures
        detector_input(d) == Seq::<u8>::empty(),
        !detector_closed(d),
        detector_allows_iso_2022_jp(d) == (iso_2022_jp is Allow),
{
    chardetng::EncodingDetector::new(
        match iso_2022_jp {
            Iso2022Jp::Allow => chardetng::Iso2022JpDetection::Allow,
            Iso2022Jp::Deny => chardetng::Iso2022JpDetection::Deny,
        },
    )
}

/// Calls `chardetng::EncodingDetector::feed`, which appends `buffer` to the bytes
/// fed so far, marks the end of the stream when `last` is set (it panics once the end
/// has been fed), and returns whether a non-ASCII byte has been fed so far. How the
/// stream is split into calls does not matter to the detector.
#[verifier::external_body]
pub(crate) fn feed_detector(d: &mut chardetng::EncodingDetector, buffer: &[u8], last: bool) -> (r: bool)
    requires
        !detector_closed(*old(d)),
    ensures
        detector_input(*final(d)) == detector_input(*old(d)) + buffer@,
        detector_closed(*final(d)) == last,
        detector_allows_iso_2022_jp(*final(d)) == detector_allows_iso_2022_jp(*old(d)),
        r <==> exists|k: int|
            0 <= k < detector_input(*final(d)).len() && #[trigger] detector_input(*final(d))[k]
                >= 128,
{
    d.feed(buffer, last)
}

/// Calls `chardetng::EncodingDetector::guess`, which panics when `tld` holds a
/// non-ASCII byte, a period or an upper-case letter, and keeps the guessed encoding
/// with its name (`encoding_rs::Encoding::name`). The guess depends on what the
/// detector was fed and made with and on the arguments; it is named `guessed_charset`.
#[verifier::external_body]
pub(crate) fn guess_charset(
    d: &chardetng::EncodingDetector,
    tld: Option<&[u8]>,
    allow_utf8: Utf8Guess,
) -> (r: Charset)
    requires
        tld matches Some(t) ==> forall|k: int|
            0 <= k < t@.len() ==> {
                let b = #[trigger] t@[k];
                b < 128 && b != 46 && !(65 <= b <= 90)
            },
    ensures
        r.label() == guessed_charset(
            detector_input(*d),
            detector_closed(*d),
            detector_allows_iso_2022_jp(*d),
            match tld {
                Some(t) => Some(t@),
                None => None,
            },
            allow_utf8 is Allow,
        ),
{
    let encoding = d.guess(
        tld,
        match allow_utf8 {
            Utf8Guess::Allow => chardetng::Utf8Detection::Allow,
            Utf8Guess::Deny => chardetng::Utf8Detection::Deny,
        },
    );
    Charset { encoding, name: encoding.name() }
}

/// Calls `encoding_rs::Encoding::decode`, which decodes the whole of `bytes` from
/// the encoding (a leading byte order mark overrides it), with malformed sequences
/// replaced by U+FFFD. The text depends on the encoding and the bytes alone; it is
/// named `decoded_text`.
#[verifier::external_body]
pub(crate) fn decode_with(charset: &Charset, bytes: &[u8]) -> (text: String)
    ensures
        text@ == decoded_text(charset.label(), bytes@),
{
    let (text, _, _) = charset.encoding.decode(bytes);
    text.into_owned()
}

} // verus!
