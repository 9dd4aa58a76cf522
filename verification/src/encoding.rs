//! The text encodings that roots can be configured with, and decoding file
//! bytes to text (`encoding_rs`).
use vstd::prelude::*;
use vstd::string::StringSliceAdditionalSpecFns;
use crate::text::str_eq;
use vstd::utf8::encode_utf8;

verus! {

/// A per-root text encoding.
#[derive(PartialEq, Eq, Structural, Clone, Copy, Debug)]
pub enum TextEncoding {
    Utf8,
    ShiftJis,
    EucJp,
}

/// The canonical name of an encoding (as `encoding_rs` names it).
pub open spec fn encoding_name(e: TextEncoding) -> Seq<char> {
    match e {
        TextEncoding::Utf8 => "UTF-8"@,
        TextEncoding::ShiftJis => "Shift_JIS"@,
        TextEncoding::EucJp => "EUC-JP"@,
    }
}

/// The encoding that a resolved encoding name stands for; names of other
/// encodings, and unknown labels, fall back to UTF-8.
pub open spec fn encoding_for_name(n: Option<Seq<char>>) -> TextEncoding {
    match n {
        Some(s) => if s == "Shift_JIS"@ {
            TextEncoding::ShiftJis
        } else if s == "EUC-JP"@ {
            TextEncoding::EucJp
        } else {
            TextEncoding::Utf8
        },
        None => TextEncoding::Utf8,
    }
}

/// The name of the encoding that `encoding_rs::Encoding::for_label` finds
/// for `label`, if any.
pub uninterp spec fn label_encoding_name(label: Seq<u8>) -> Option<Seq<char>>;

/// The text that `encoding_rs::Encoding::decode` produces for `bytes` in the
/// given encoding (with BOM sniffing and replacement of malformed input).
pub uninterp spec fn decoded_text(enc: TextEncoding, bytes: Seq<u8>) -> Seq<char>;

/// The view of an optional string.
pub open spec fn opt_string_view(o: Option<String>) -> Option<Seq<char>> {
    match o {
        Some(s) => Some(s@),
        None => None,
    }
}

/// `encoding_rs::Encoding::for_label`, giving the name of the encoding found.
/// Its label table maps `utf-8`, `shift_jis` and `euc-jp` (matched without
/// regard to ASCII case) to the encodings named `UTF-8`, `Shift_JIS` and
/// `EUC-JP`, so each of these names is found as itself.
#[verifier::external_body]
fn encoding_name_for_label(label: &[u8]) -> (r: Option<String>)
    ensures
        opt_string_view(r) == label_encoding_name(label@),
        label@ == encode_utf8("UTF-8"@) ==> opt_string_view(r) == Some("UTF-8"@),
        label@ == encode_utf8("Shift_JIS"@) ==> opt_string_view(r) == Some("Shift_JIS"@),
        label@ == encode_utf8("EUC-JP"@) ==> opt_string_view(r) == Some("EUC-JP"@),
{
    encoding_rs::Encoding::for_label(label).map(|e| e.name().to_string())
}

impl TextEncoding {
    /// The canonical name stored with each document.
    pub fn name(&self) -> (r: &'static str)
        ensures
            r@ == encoding_name(*self),
    {
        match self {
            TextEncoding::Utf8 => "UTF-8",
            TextEncoding::ShiftJis => "Shift_JIS",
            TextEncoding::EucJp => "EUC-JP",
        }
    }
}

/// The encoding for a configured label such as `utf-8`, `shift_jis` or
/// `euc-jp` (any label that `encoding_rs` knows); UTF-8 otherwise.
///
/// The canonical name of each encoding resolves back to that encoding, so
/// the name stored with a document decodes it as it was indexed.
pub fn enc_by_name(name: &str) -> (r: TextEncoding)
    ensures
        r == encoding_for_name(label_encoding_name(name.spec_bytes())),
        forall|e: TextEncoding| name@ == #[trigger] encoding_name(e) ==> r == e,
{
    proof {
        reveal_strlit("UTF-8");
        reveal_strlit("Shift_JIS");
        reveal_strlit("EUC-JP");
        assert("UTF-8"@.len() != "Shift_JIS"@.len());
        assert("UTF-8"@.len() != "EUC-JP"@.len());
        assert("Shift_JIS"@.len() != "EUC-JP"@.len());
    }
    match encoding_name_for_label(name.as_bytes()) {
        Some(n) => {
            if str_eq(n.as_str(), "Shift_JIS") {
                TextEncoding::ShiftJis
            } else if str_eq(n.as_str(), "EUC-JP") {
                TextEncoding::EucJp
            } else {
                TextEncoding::Utf8
            }
        },
        None => TextEncoding::Utf8,
    }
}

/// Decodes file bytes to text with `encoding_rs` (`Encoding::decode`).
#[verifier::external_body]
pub(crate) fn decode(enc: TextEncoding, bytes: &[u8]) -> (r: String)
    requires
        bytes@.len() <= usize::MAX / 8,
    ensures
        r@ == decoded_text(enc, bytes@),
{
    let e = match enc {
        TextEncoding::Utf8 => encoding_rs::UTF_8,
        TextEncoding::ShiftJis => encoding_rs::SHIFT_JIS,
        TextEncoding::EucJp => encoding_rs::EUC_JP,
    };
    e.decode(bytes).0.into_owned()
}

} // verus!
