//! Errors reported by the renderer and its encoders.
use vstd::prelude::*;
use vstd::string::*;

verus! {

/// What went wrong. Failures of file, image, archive and JSON handling carry
/// the underlying error's message.
#[derive(Debug, Clone)]
pub enum Error {
    Io(String),
    Image(String),
    Zip(String),
    Json(String),
    MissingFile(String),
    MissingData(String),
    InvalidTemplate(String),
    FileNotFound(String),
    NoRenders,
    NoMapping,
    NoRepository,
    NoInputs,
    GifEncode(String),
    VideoEncode(String),
    TextRender(String),
    WebpEncode(String),
    Other(String),
}

/// The text shown for an error: a fixed prefix per kind, then its message.
pub open spec fn error_text(e: Error) -> Seq<char> {
    match e {
        Error::Io(m) => "IO error: "@ + m@,
        Error::Image(m) => "Image error: "@ + m@,
        Error::Zip(m) => "Zip error: "@ + m@,
        Error::Json(m) => "JSON error: "@ + m@,
        Error::MissingFile(m) => "Missing file: "@ + m@,
        Error::MissingData(m) => "Missing data: "@ + m@,
        Error::InvalidTemplate(m) => "Invalid template: "@ + m@,
        Error::FileNotFound(m) => "File not found: "@ + m@,
        Error::NoRenders => "No renders attached"@,
        Error::NoMapping => "No mapping attached"@,
        Error::NoRepository => "No repository attached"@,
        Error::NoInputs => "No inputs attached"@,
        Error::GifEncode(m) => "GIF encoding error: "@ + m@,
        Error::VideoEncode(m) => "Video encoding error: "@ + m@,
        Error::TextRender(m) => "Text rendering error: "@ + m@,
        Error::WebpEncode(m) => "WebP encoding error: "@ + m@,
        Error::Other(m) => m@,
    }
}

/// `prefix` followed by `m`.
fn prefixed(prefix: &str, m: &String) -> (s: String)
    ensures
        s@ == prefix@ + m@,
{
    let mut s = String::from_str(prefix);
    s.append(m.as_str());
    s
}

impl Error {
    /// The text shown for this error.
    pub fn message(&self) -> (s: String)
        ensures
            s@ == error_text(*self),
    {
        match self {
            Error::Io(m) => prefixed("IO error: ", m),
            Error::Image(m) => prefixed("Image error: ", m),
            Error::Zip(m) => prefixed("Zip error: ", m),
            Error::Json(m) => prefixed("JSON error: ", m),
            Error::MissingFile(m) => prefixed("Missing file: ", m),
            Error::MissingData(m) => prefixed("Missing data: ", m),
            Error::InvalidTemplate(m) => prefixed("Invalid template: ", m),
            Error::FileNotFound(m) => prefixed("File not found: ", m),
            Error::NoRenders => String::from_str("No renders attached"),
            Error::NoMapping => String::from_str("No mapping attached"),
            Error::NoRepository => String::from_str("No repository attached"),
            Error::NoInputs => String::from_str("No inputs attached"),
            Error::GifEncode(m) => prefixed("GIF encoding error: ", m),
            Error::VideoEncode(m) => prefixed("Video encoding error: ", m),
            Error::TextRender(m) => prefixed("Text rendering error: ", m),
            Error::WebpEncode(m) => prefixed("WebP encoding error: ", m),
            Error::Other(m) => m.clone(),
        }
    }
}

impl From<String> for Error {
    /// A message of its own.
    fn from(message: String) -> (e: Self) {
        Error::Other(message)
    }
}

impl vstd::std_specs::convert::FromSpecImpl<String> for Error {
    open spec fn obeys_from_spec() -> bool {
        true
    }

    open spec fn from_spec(message: String) -> Self {
        Error::Other(message)
    }
}

} // verus!
