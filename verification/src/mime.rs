//! The embedded media-type table: a fixed, append-only enumeration mapping
//! a 16-bit code to an IANA media type, a file extension and a high-level
//! category. The codes are part of the on-disk format, embedded in every
//! stream identifier.

use crate::hash::bytes_eq;
use vstd::prelude::*;
use vstd::utf8::encode_utf8_decode_utf8;

verus! {

/// A media type the store can tag a stream with; code 0
/// (`ApplicationOctetStream`) is the default.
#[derive(Clone, Copy, Debug, PartialEq, Eq, Hash, PartialOrd, Ord, Structural)]
pub enum Mime {
    ApplicationOctetStream,
    ApplicationMsword,
    ApplicationEpub,
    ApplicationGzip,
    ApplicationJavaArchive,
    ApplicationJson,
    ApplicationPdf,
    ApplicationRtf,
    ApplicationXhtml,
    ApplicationXml,
    ApplicationZip,
    ApplicationBzip,
    ApplicationBzip2,
    ApplicationTar,
    AudioAac,
    AudioMidi,
    AudioMpeg,
    AudioOgg,
    AudioOpus,
    AudioWav,
    AudioWebm,
    FontOtf,
    FontTtf,
    FontWoff,
    FontWoff2,
    ImageAvif,
    ImageBmp,
    ImageGif,
    ImageJpeg,
    ImagePng,
    ImageSvg,
    ImageTiff,
    ImageWebp,
    TextCss,
    TextCsv,
    TextHtml,
    TextCalendar,
    TextJavascript,
    TextPlain,
    VideoMp4,
    VideoMpeg,
    VideoOgg,
    VideoMp2t,
    VideoWebm,
    Video3gpp,
    Video3gpp2,
    ApplicationDash,
}

/// The high-level category of a media type.
#[derive(Clone, Copy, Debug, PartialEq, Eq, Hash, PartialOrd, Ord, Structural)]
pub enum MimeType {
    Application,
    Audio,
    Font,
    Image,
    Model,
    Text,
    Video,
    Message,
    Multipart,
}

/// The 16-bit code of a media type: its position in the table.
pub open spec fn spec_mime_code(m: Mime) -> u16 {
    match m {
        Mime::ApplicationOctetStream => 0,
        Mime::ApplicationMsword => 1,
        Mime::ApplicationEpub => 2,
        Mime::ApplicationGzip => 3,
        Mime::ApplicationJavaArchive => 4,
        Mime::ApplicationJson => 5,
        Mime::ApplicationPdf => 6,
        Mime::ApplicationRtf => 7,
        Mime::ApplicationXhtml => 8,
        Mime::ApplicationXml => 9,
        Mime::ApplicationZip => 10,
        Mime::ApplicationBzip => 11,
        Mime::ApplicationBzip2 => 12,
        Mime::ApplicationTar => 13,
        Mime::AudioAac => 14,
        Mime::AudioMidi => 15,
        Mime::AudioMpeg => 16,
        Mime::AudioOgg => 17,
        Mime::AudioOpus => 18,
        Mime::AudioWav => 19,
        Mime::AudioWebm => 20,
        Mime::FontOtf => 21,
        Mime::FontTtf => 22,
        Mime::FontWoff => 23,
        Mime::FontWoff2 => 24,
        Mime::ImageAvif => 25,
        Mime::ImageBmp => 26,
        Mime::ImageGif => 27,
        Mime::ImageJpeg => 28,
        Mime::ImagePng => 29,
        Mime::ImageSvg => 30,
        Mime::ImageTiff => 31,
        Mime::ImageWebp => 32,
        Mime::TextCss => 33,
        Mime::TextCsv => 34,
        Mime::TextHtml => 35,
        Mime::TextCalendar => 36,
        Mime::TextJavascript => 37,
        Mime::TextPlain => 38,
        Mime::VideoMp4 => 39,
        Mime::VideoMpeg => 40,
        Mime::VideoOgg => 41,
        Mime::VideoMp2t => 42,
        Mime::VideoWebm => 43,
        Mime::Video3gpp => 44,
        Mime::Video3gpp2 => 45,
        Mime::ApplicationDash => 46,
    }
}

/// The media type of a 16-bit code, when the table has it.
pub open spec fn spec_mime_of_code(x: u16) -> Option<Mime> {

    if x == 0 {
        Some(Mime::ApplicationOctetStream)
    } else if x == 1 {
        Some(Mime::ApplicationMsword)
    } else if x == 2 {
        Some(Mime::ApplicationEpub)
    } else if x == 3 {
        Some(Mime::ApplicationGzip)
    } else if x == 4 {
        Some(Mime::ApplicationJavaArchive)
    } else if x == 5 {
        Some(Mime::ApplicationJson)
    } else if x == 6 {
        Some(Mime::ApplicationPdf)
    } else if x == 7 {
        Some(Mime::ApplicationRtf)
    } else if x == 8 {
        Some(Mime::ApplicationXhtml)
    } else if x == 9 {
        Some(Mime::ApplicationXml)
    } else if x == 10 {
        Some(Mime::ApplicationZip)
    } else if x == 11 {
        Some(Mime::ApplicationBzip)
    } else if x == 12 {
        Some(Mime::ApplicationBzip2)
    } else if x == 13 {
        Some(Mime::ApplicationTar)
    } else if x == 14 {
        Some(Mime::AudioAac)
    } else if x == 15 {
        Some(Mime::AudioMidi)
    } else if x == 16 {
        Some(Mime::AudioMpeg)
    } else if x == 17 {
        Some(Mime::AudioOgg)
    } else if x == 18 {
        Some(Mime::AudioOpus)
    } else if x == 19 {
        Some(Mime::AudioWav)
    } else if x == 20 {
        Some(Mime::AudioWebm)
    } else if x == 21 {
        Some(Mime::FontOtf)
    } else if x == 22 {
        Some(Mime::FontTtf)
    } else if x == 23 {
        Some(Mime::FontWoff)
    } else if x == 24 {
        Some(Mime::FontWoff2)
    } else if x == 25 {
        Some(Mime::ImageAvif)
    } else if x == 26 {
        Some(Mime::ImageBmp)
    } else if x == 27 {
        Some(Mime::ImageGif)
    } else if x == 28 {
        Some(Mime::ImageJpeg)
    } else if x == 29 {
        Some(Mime::ImagePng)
    } else if x == 30 {
        Some(Mime::ImageSvg)
    } else if x == 31 {
        Some(Mime::ImageTiff)
    } else if x == 32 {
        Some(Mime::ImageWebp)
    } else if x == 33 {
        Some(Mime::TextCss)
    } else if x == 34 {
        Some(Mime::TextCsv)
    } else if x == 35 {
        Some(Mime::TextHtml)
    } else if x == 36 {
        Some(Mime::TextCalendar)
    } else if x == 37 {
        Some(Mime::TextJavascript)
    } else if x == 38 {
        Some(Mime::TextPlain)
    } else if x == 39 {
        Some(Mime::VideoMp4)
    } else if x == 40 {
        Some(Mime::VideoMpeg)
    } else if x == 41 {
        Some(Mime::VideoOgg)
    } else if x == 42 {
        Some(Mime::VideoMp2t)
    } else if x == 43 {
        Some(Mime::VideoWebm)
    } else if x == 44 {
        Some(Mime::Video3gpp)
    } else if x == 45 {
        Some(Mime::Video3gpp2)
    } else if x == 46 {
        Some(Mime::ApplicationDash)
    } else {
        None
    }
}

/// The IANA media-type string of each table row.
pub open spec fn spec_mime_str(m: Mime) -> Seq<char> {
    match m {
        Mime::ApplicationOctetStream => "application/octet-stream"@,
        Mime::ApplicationMsword => "application/msword"@,
        Mime::ApplicationEpub => "application/epub+zip"@,
        Mime::ApplicationGzip => "application/gzip"@,
        Mime::ApplicationJavaArchive => "application/java-archive"@,
        Mime::ApplicationJson => "application/json"@,
        Mime::ApplicationPdf => "application/pdf"@,
        Mime::ApplicationRtf => "application/rtf"@,
        Mime::ApplicationXhtml => "application/xhtml+xml"@,
        Mime::ApplicationXml => "application/xml"@,
        Mime::ApplicationZip => "application/zip"@,
        Mime::ApplicationBzip => "application/x-bzip"@,
        Mime::ApplicationBzip2 => "application/x-bzip2"@,
        Mime::ApplicationTar => "application/x-tar"@,
        Mime::AudioAac => "audio/aac"@,
        Mime::AudioMidi => "audio/midi"@,
        Mime::AudioMpeg => "audio/mpeg"@,
        Mime::AudioOgg => "audio/ogg"@,
        Mime::AudioOpus => "audio/opus"@,
        Mime::AudioWav => "audio/wav"@,
        Mime::AudioWebm => "audio/webm"@,
        Mime::FontOtf => "font/otf"@,
        Mime::FontTtf => "font/ttf"@,
        Mime::FontWoff => "font/woff"@,
        Mime::FontWoff2 => "font/woff2"@,
        Mime::ImageAvif => "image/avif"@,
        Mime::ImageBmp => "image/bmp"@,
        Mime::ImageGif => "image/gif"@,
        Mime::ImageJpeg => "image/jpeg"@,
        Mime::ImagePng => "image/png"@,
        Mime::ImageSvg => "image/svg+xml"@,
        Mime::ImageTiff => "image/tiff"@,
        Mime::ImageWebp => "image/webp"@,
        Mime::TextCss => "text/css"@,
        Mime::TextCsv => "text/csv"@,
        Mime::TextHtml => "text/html"@,
        Mime::TextCalendar => "text/calendar"@,
        Mime::TextJavascript => "text/javascript"@,
        Mime::TextPlain => "text/plain"@,
        Mime::VideoMp4 => "video/mp4"@,
        Mime::VideoMpeg => "video/mpeg"@,
        Mime::VideoOgg => "video/ogg"@,
        Mime::VideoMp2t => "video/mp2t"@,
        Mime::VideoWebm => "video/webm"@,
        Mime::Video3gpp => "video/3gpp"@,
        Mime::Video3gpp2 => "video/3gpp2"@,
        Mime::ApplicationDash => "application/dash+xml"@,
    }
}

/// The file extension of each table row.
pub open spec fn spec_ext_str(m: Mime) -> Seq<char> {
    match m {
        Mime::ApplicationOctetStream => "bin"@,
        Mime::ApplicationMsword => "doc"@,
        Mime::ApplicationEpub => "epub"@,
        Mime::ApplicationGzip => "gz"@,
        Mime::ApplicationJavaArchive => "jar"@,
        Mime::ApplicationJson => "json"@,
        Mime::ApplicationPdf => "pdf"@,
        Mime::ApplicationRtf => "rtf"@,
        Mime::ApplicationXhtml => "xhtml"@,
        Mime::ApplicationXml => "xml"@,
        Mime::ApplicationZip => "zip"@,
        Mime::ApplicationBzip => "bz"@,
        Mime::ApplicationBzip2 => "bz2"@,
        Mime::ApplicationTar => "tar"@,
        Mime::AudioAac => "aac"@,
        Mime::AudioMidi => "midi"@,
        Mime::AudioMpeg => "mp3"@,
        Mime::AudioOgg => "oga"@,
        Mime::AudioOpus => "opus"@,
        Mime::AudioWav => "wav"@,
        Mime::AudioWebm => "weba"@,
        Mime::FontOtf => "otf"@,
        Mime::FontTtf => "ttf"@,
        Mime::FontWoff => "woff"@,
        Mime::FontWoff2 => "woff2"@,
        Mime::ImageAvif => "avif"@,
        Mime::ImageBmp => "bmp"@,
        Mime::ImageGif => "gif"@,
        Mime::ImageJpeg => "jpg"@,
        Mime::ImagePng => "png"@,
        Mime::ImageSvg => "svg"@,
        Mime::ImageTiff => "tiff"@,
        Mime::ImageWebp => "webp"@,
        Mime::TextCss => "css"@,
        Mime::TextCsv => "csv"@,
        Mime::TextHtml => "html"@,
        Mime::TextCalendar => "ics"@,
        Mime::TextJavascript => "js"@,
        Mime::TextPlain => "txt"@,
        Mime::VideoMp4 => "mp4"@,
        Mime::VideoMpeg => "mpeg"@,
        Mime::VideoOgg => "ogv"@,
        Mime::VideoMp2t => "ts"@,
        Mime::VideoWebm => "webm"@,
        Mime::Video3gpp => "3gp"@,
        Mime::Video3gpp2 => "3g2"@,
        Mime::ApplicationDash => "mpd"@,
    }
}

/// The category of each table row.
pub open spec fn spec_mime_type(m: Mime) -> MimeType {
    match m {
        Mime::ApplicationOctetStream => MimeType::Application,
        Mime::ApplicationMsword => MimeType::Application,
        Mime::ApplicationEpub => MimeType::Application,
        Mime::ApplicationGzip => MimeType::Application,
        Mime::ApplicationJavaArchive => MimeType::Application,
        Mime::ApplicationJson => MimeType::Application,
        Mime::ApplicationPdf => MimeType::Application,
        Mime::ApplicationRtf => MimeType::Application,
        Mime::ApplicationXhtml => MimeType::Application,
        Mime::ApplicationXml => MimeType::Application,
        Mime::ApplicationZip => MimeType::Application,
        Mime::ApplicationBzip => MimeType::Application,
        Mime::ApplicationBzip2 => MimeType::Application,
        Mime::ApplicationTar => MimeType::Application,
        Mime::AudioAac => MimeType::Audio,
        Mime::AudioMidi => MimeType::Audio,
        Mime::AudioMpeg => MimeType::Audio,
        Mime::AudioOgg => MimeType::Audio,
        Mime::AudioOpus => MimeType::Audio,
        Mime::AudioWav => MimeType::Audio,
        Mime::AudioWebm => MimeType::Audio,
        Mime::FontOtf => MimeType::Font,
        Mime::FontTtf => MimeType::Font,
        Mime::FontWoff => MimeType::Font,
        Mime::FontWoff2 => MimeType::Font,
        Mime::ImageAvif => MimeType::Image,
        Mime::ImageBmp => MimeType::Image,
        Mime::ImageGif => MimeType::Image,
        Mime::ImageJpeg => MimeType::Image,
        Mime::ImagePng => MimeType::Image,
        Mime::ImageSvg => MimeType::Image,
        Mime::ImageTiff => MimeType::Image,
        Mime::ImageWebp => MimeType::Image,
        Mime::TextCss => MimeType::Text,
        Mime::TextCsv => MimeType::Text,
        Mime::TextHtml => MimeType::Text,
        Mime::TextCalendar => MimeType::Text,
        Mime::TextJavascript => MimeType::Text,
        Mime::TextPlain => MimeType::Text,
        Mime::VideoMp4 => MimeType::Video,
        Mime::VideoMpeg => MimeType::Video,
        Mime::VideoOgg => MimeType::Video,
        Mime::VideoMp2t => MimeType::Video,
        Mime::VideoWebm => MimeType::Video,
        Mime::Video3gpp => MimeType::Video,
        Mime::Video3gpp2 => MimeType::Video,
        Mime::ApplicationDash => MimeType::Application,
    }
}

/// The position of the last occurrence of `c`, or -1 when there is none.
pub open spec fn spec_last_pos(s: Seq<char>, c: char) -> int
    decreases s.len(),
{
    if s.len() == 0 {
        -1
    } else if s.last() == c {
        s.len() - 1
    } else {
        spec_last_pos(s.drop_last(), c)
    }
}

/// `spec_last_pos` names the largest index holding `c`, or -1.
pub proof fn lemma_last_pos(s: Seq<char>, c: char)
    ensures
        -1 <= spec_last_pos(s, c) < s.len(),
        spec_last_pos(s, c) >= 0 ==> s[spec_last_pos(s, c)] == c,
        forall|j: int| spec_last_pos(s, c) < j < s.len() ==> s[j] != c,
    decreases s.len(),
{
    if s.len() > 0 && s.last() != c {
        lemma_last_pos(s.drop_last(), c);
        assert forall|j: int| spec_last_pos(s, c) < j < s.len() implies s[j] != c by {
            if j < s.len() - 1 {
                assert(s[j] == s.drop_last()[j]);
            }
        }
    }
}

/// The file-name extension of a path: the characters after the last `.`,
/// provided that dot lies inside the last path segment and is not the
/// segment's first character.
pub open spec fn spec_path_ext(s: Seq<char>) -> Option<Seq<char>> {
    let slash = spec_last_pos(s, '/');
    let dot = spec_last_pos(s, '.');
    if dot > slash + 1 {
        Some(s.subrange(dot + 1, s.len() as int))
    } else {
        None
    }
}

/// String equality on the character level.
fn str_eq(a: &str, b: &str) -> (r: bool)
    ensures
        r == (a@ == b@),
{
    let r = bytes_eq(a.as_bytes(), b.as_bytes());
    proof {
        if r {
            encode_utf8_decode_utf8(a@);
            encode_utf8_decode_utf8(b@);
        }
    }
    r
}

impl Mime {
    /// The 16-bit code stored in stream identifiers.
    pub fn code(&self) -> (r: u16)
        ensures
            r == spec_mime_code(*self),
    {
        match *self {
            Mime::ApplicationOctetStream => 0,
            Mime::ApplicationMsword => 1,
            Mime::ApplicationEpub => 2,
            Mime::ApplicationGzip => 3,
            Mime::ApplicationJavaArchive => 4,
            Mime::ApplicationJson => 5,
            Mime::ApplicationPdf => 6,
            Mime::ApplicationRtf => 7,
            Mime::ApplicationXhtml => 8,
            Mime::ApplicationXml => 9,
            Mime::ApplicationZip => 10,
            Mime::ApplicationBzip => 11,
            Mime::ApplicationBzip2 => 12,
            Mime::ApplicationTar => 13,
            Mime::AudioAac => 14,
            Mime::AudioMidi => 15,
            Mime::AudioMpeg => 16,
            Mime::AudioOgg => 17,
            Mime::AudioOpus => 18,
            Mime::AudioWav => 19,
            Mime::AudioWebm => 20,
            Mime::FontOtf => 21,
            Mime::FontTtf => 22,
            Mime::FontWoff => 23,
            Mime::FontWoff2 => 24,
            Mime::ImageAvif => 25,
            Mime::ImageBmp => 26,
            Mime::ImageGif => 27,
            Mime::ImageJpeg => 28,
            Mime::ImagePng => 29,
            Mime::ImageSvg => 30,
            Mime::ImageTiff => 31,
            Mime::ImageWebp => 32,
            Mime::TextCss => 33,
            Mime::TextCsv => 34,
            Mime::TextHtml => 35,
            Mime::TextCalendar => 36,
            Mime::TextJavascript => 37,
            Mime::TextPlain => 38,
            Mime::VideoMp4 => 39,
            Mime::VideoMpeg => 40,
            Mime::VideoOgg => 41,
            Mime::VideoMp2t => 42,
            Mime::VideoWebm => 43,
            Mime::Video3gpp => 44,
            Mime::Video3gpp2 => 45,
            Mime::ApplicationDash => 46,
        }
    }

    /// Look a media type up by its 16-bit code; fails exactly on codes the
    /// table does not have.
    pub fn from_u16(mime: u16) -> (r: Option<Mime>)
        ensures
            r == spec_mime_of_code(mime),
            r matches Some(m) ==> spec_mime_code(m) == mime,
    {

        if mime == 0 {
            Some(Mime::ApplicationOctetStream)
        } else if mime == 1 {
            Some(Mime::ApplicationMsword)
        } else if mime == 2 {
            Some(Mime::ApplicationEpub)
        } else if mime == 3 {
            Some(Mime::ApplicationGzip)
        } else if mime == 4 {
            Some(Mime::ApplicationJavaArchive)
        } else if mime == 5 {
            Some(Mime::ApplicationJson)
        } else if mime == 6 {
            Some(Mime::ApplicationPdf)
        } else if mime == 7 {
            Some(Mime::ApplicationRtf)
        } else if mime == 8 {
            Some(Mime::ApplicationXhtml)
        } else if mime == 9 {
            Some(Mime::ApplicationXml)
        } else if mime == 10 {
            Some(Mime::ApplicationZip)
        } else if mime == 11 {
            Some(Mime::ApplicationBzip)
        } else if mime == 12 {
            Some(Mime::ApplicationBzip2)
        } else if mime == 13 {
            Some(Mime::ApplicationTar)
        } else if mime == 14 {
            Some(Mime::AudioAac)
        } else if mime == 15 {
            Some(Mime::AudioMidi)
        } else if mime == 16 {
            Some(Mime::AudioMpeg)
        } else if mime == 17 {
            Some(Mime::AudioOgg)
        } else if mime == 18 {
            Some(Mime::AudioOpus)
        } else if mime == 19 {
            Some(Mime::AudioWav)
        } else if mime == 20 {
            Some(Mime::AudioWebm)
        } else if mime == 21 {
            Some(Mime::FontOtf)
        } else if mime == 22 {
            Some(Mime::FontTtf)
        } else if mime == 23 {
            Some(Mime::FontWoff)
        } else if mime == 24 {
            Some(Mime::FontWoff2)
        } else if mime == 25 {
            Some(Mime::ImageAvif)
        } else if mime == 26 {
            Some(Mime::ImageBmp)
        } else if mime == 27 {
            Some(Mime::ImageGif)
        } else if mime == 28 {
            Some(Mime::ImageJpeg)
        } else if mime == 29 {
            Some(Mime::ImagePng)
        } else if mime == 30 {
            Some(Mime::ImageSvg)
        } else if mime == 31 {
            Some(Mime::ImageTiff)
        } else if mime == 32 {
            Some(Mime::ImageWebp)
        } else if mime == 33 {
            Some(Mime::TextCss)
        } else if mime == 34 {
            Some(Mime::TextCsv)
        } else if mime == 35 {
            Some(Mime::TextHtml)
        } else if mime == 36 {
            Some(Mime::TextCalendar)
        } else if mime == 37 {
            Some(Mime::TextJavascript)
        } else if mime == 38 {
            Some(Mime::TextPlain)
        } else if mime == 39 {
            Some(Mime::VideoMp4)
        } else if mime == 40 {
            Some(Mime::VideoMpeg)
        } else if mime == 41 {
            Some(Mime::VideoOgg)
        } else if mime == 42 {
            Some(Mime::VideoMp2t)
        } else if mime == 43 {
            Some(Mime::VideoWebm)
        } else if mime == 44 {
            Some(Mime::Video3gpp)
        } else if mime == 45 {
            Some(Mime::Video3gpp2)
        } else if mime == 46 {
            Some(Mime::ApplicationDash)
        } else {
            None
        }
    }

    /// Look a media type up by its IANA string; fails exactly when no table
    /// row carries that string.
    pub fn from_mime(mime: &str) -> (r: Option<Mime>)
        ensures
            r matches Some(m) ==> mime@ == spec_mime_str(m),
            r is None ==> forall|m: Mime| mime@ != spec_mime_str(m),
    {

        if str_eq(mime, "application/octet-stream") {
            return Some(Mime::ApplicationOctetStream);
        }
        if str_eq(mime, "application/msword") {
            return Some(Mime::ApplicationMsword);
        }
        if str_eq(mime, "application/epub+zip") {
            return Some(Mime::ApplicationEpub);
        }
        if str_eq(mime, "application/gzip") {
            return Some(Mime::ApplicationGzip);
        }
        if str_eq(mime, "application/java-archive") {
            return Some(Mime::ApplicationJavaArchive);
        }
        if str_eq(mime, "application/json") {
            return Some(Mime::ApplicationJson);
        }
        if str_eq(mime, "application/pdf") {
            return Some(Mime::ApplicationPdf);
        }
        if str_eq(mime, "application/rtf") {
            return Some(Mime::ApplicationRtf);
        }
        if str_eq(mime, "application/xhtml+xml") {
            return Some(Mime::ApplicationXhtml);
        }
        if str_eq(mime, "application/xml") {
            return Some(Mime::ApplicationXml);
        }
        if str_eq(mime, "application/zip") {
            return Some(Mime::ApplicationZip);
        }
        if str_eq(mime, "application/x-bzip") {
            return Some(Mime::ApplicationBzip);
        }
        if str_eq(mime, "application/x-bzip2") {
            return Some(Mime::ApplicationBzip2);
        }
        if str_eq(mime, "application/x-tar") {
            return Some(Mime::ApplicationTar);
        }
        if str_eq(mime, "audio/aac") {
            return Some(Mime::AudioAac);
        }
        if str_eq(mime, "audio/midi") {
            return Some(Mime::AudioMidi);
        }
        if str_eq(mime, "audio/mpeg") {
            return Some(Mime::AudioMpeg);
        }
        if str_eq(mime, "audio/ogg") {
            return Some(Mime::AudioOgg);
        }
        if str_eq(mime, "audio/opus") {
            return Some(Mime::AudioOpus);
        }
        if str_eq(mime, "audio/wav") {
            return Some(Mime::AudioWav);
        }
        if str_eq(mime, "audio/webm") {
            return Some(Mime::AudioWebm);
        }
        if str_eq(mime, "font/otf") {
            return Some(Mime::FontOtf);
        }
        if str_eq(mime, "font/ttf") {
            return Some(Mime::FontTtf);
        }
        if str_eq(mime, "font/woff") {
            return Some(Mime::FontWoff);
        }
        if str_eq(mime, "font/woff2") {
            return Some(Mime::FontWoff2);
        }
        if str_eq(mime, "image/avif") {
            return Some(Mime::ImageAvif);
        }
        if str_eq(mime, "image/bmp") {
            return Some(Mime::ImageBmp);
        }
        if str_eq(mime, "image/gif") {
            return Some(Mime::ImageGif);
        }
        if str_eq(mime, "image/jpeg") {
            return Some(Mime::ImageJpeg);
        }
        if str_eq(mime, "image/png") {
            return Some(Mime::ImagePng);
        }
        if str_eq(mime, "image/svg+xml") {
            return Some(Mime::ImageSvg);
        }
        if str_eq(mime, "image/tiff") {
            return Some(Mime::ImageTiff);
        }
        if str_eq(mime, "image/webp") {
            return Some(Mime::ImageWebp);
        }
        if str_eq(mime, "text/css") {
            return Some(Mime::TextCss);
        }
        if str_eq(mime, "text/csv") {
            return Some(Mime::TextCsv);
        }
        if str_eq(mime, "text/html") {
            return Some(Mime::TextHtml);
        }
        if str_eq(mime, "text/calendar") {
            return Some(Mime::TextCalendar);
        }
        if str_eq(mime, "text/javascript") {
            return Some(Mime::TextJavascript);
        }
        if str_eq(mime, "text/plain") {
            return Some(Mime::TextPlain);
        }
        if str_eq(mime, "video/mp4") {
            return Some(Mime::VideoMp4);
        }
        if str_eq(mime, "video/mpeg") {
            return Some(Mime::VideoMpeg);
        }
        if str_eq(mime, "video/ogg") {
            return Some(Mime::VideoOgg);
        }
        if str_eq(mime, "video/mp2t") {
            return Some(Mime::VideoMp2t);
        }
        if str_eq(mime, "video/webm") {
            return Some(Mime::VideoWebm);
        }
        if str_eq(mime, "video/3gpp") {
            return Some(Mime::Video3gpp);
        }
        if str_eq(mime, "video/3gpp2") {
            return Some(Mime::Video3gpp2);
        }
        if str_eq(mime, "application/dash+xml") {
            return Some(Mime::ApplicationDash);
        }
        None
    }

    /// Look a media type up by its file extension; fails exactly when no
    /// table row carries that extension.
    pub fn from_ext(ext: &str) -> (r: Option<Mime>)
        ensures
            r matches Some(m) ==> ext@ == spec_ext_str(m),
            r is None ==> forall|m: Mime| ext@ != spec_ext_str(m),
    {

        if str_eq(ext, "bin") {
            return Some(Mime::ApplicationOctetStream);
        }
        if str_eq(ext, "doc") {
            return Some(Mime::ApplicationMsword);
        }
        if str_eq(ext, "epub") {
            return Some(Mime::ApplicationEpub);
        }
        if str_eq(ext, "gz") {
            return Some(Mime::ApplicationGzip);
        }
        if str_eq(ext, "jar") {
            return Some(Mime::ApplicationJavaArchive);
        }
        if str_eq(ext, "json") {
            return Some(Mime::ApplicationJson);
        }
        if str_eq(ext, "pdf") {
            return Some(Mime::ApplicationPdf);
        }
        if str_eq(ext, "rtf") {
            return Some(Mime::ApplicationRtf);
        }
        if str_eq(ext, "xhtml") {
            return Some(Mime::ApplicationXhtml);
        }
        if str_eq(ext, "xml") {
            return Some(Mime::ApplicationXml);
        }
        if str_eq(ext, "zip") {
            return Some(Mime::ApplicationZip);
        }
        if str_eq(ext, "bz") {
            return Some(Mime::ApplicationBzip);
        }
        if str_eq(ext, "bz2") {
            return Some(Mime::ApplicationBzip2);
        }
        if str_eq(ext, "tar") {
            return Some(Mime::ApplicationTar);
        }
        if str_eq(ext, "aac") {
            return Some(Mime::AudioAac);
        }
        if str_eq(ext, "midi") {
            return Some(Mime::AudioMidi);
        }
        if str_eq(ext, "mp3") {
            return Some(Mime::AudioMpeg);
        }
        if str_eq(ext, "oga") {
            return Some(Mime::AudioOgg);
        }
        if str_eq(ext, "opus") {
            return Some(Mime::AudioOpus);
        }
        if str_eq(ext, "wav") {
            return Some(Mime::AudioWav);
        }
        if str_eq(ext, "weba") {
            return Some(Mime::AudioWebm);
        }
        if str_eq(ext, "otf") {
            return Some(Mime::FontOtf);
        }
        if str_eq(ext, "ttf") {
            return Some(Mime::FontTtf);
        }
        if str_eq(ext, "woff") {
            return Some(Mime::FontWoff);
        }
        if str_eq(ext, "woff2") {
            return Some(Mime::FontWoff2);
        }
        if str_eq(ext, "avif") {
            return Some(Mime::ImageAvif);
        }
        if str_eq(ext, "bmp") {
            return Some(Mime::ImageBmp);
        }
        if str_eq(ext, "gif") {
            return Some(Mime::ImageGif);
        }
        if str_eq(ext, "jpg") {
            return Some(Mime::ImageJpeg);
        }
        if str_eq(ext, "png") {
            return Some(Mime::ImagePng);
        }
        if str_eq(ext, "svg") {
            return Some(Mime::ImageSvg);
        }
        if str_eq(ext, "tiff") {
            return Some(Mime::ImageTiff);
        }
        if str_eq(ext, "webp") {
            return Some(Mime::ImageWebp);
        }
        if str_eq(ext, "css") {
            return Some(Mime::TextCss);
        }
        if str_eq(ext, "csv") {
            return Some(Mime::TextCsv);
        }
        if str_eq(ext, "html") {
            return Some(Mime::TextHtml);
        }
        if str_eq(ext, "ics") {
            return Some(Mime::TextCalendar);
        }
        if str_eq(ext, "js") {
            return Some(Mime::TextJavascript);
        }
        if str_eq(ext, "txt") {
            return Some(Mime::TextPlain);
        }
        if str_eq(ext, "mp4") {
            return Some(Mime::VideoMp4);
        }
        if str_eq(ext, "mpeg") {
            return Some(Mime::VideoMpeg);
        }
        if str_eq(ext, "ogv") {
            return Some(Mime::VideoOgg);
        }
        if str_eq(ext, "ts") {
            return Some(Mime::VideoMp2t);
        }
        if str_eq(ext, "webm") {
            return Some(Mime::VideoWebm);
        }
        if str_eq(ext, "3gp") {
            return Some(Mime::Video3gpp);
        }
        if str_eq(ext, "3g2") {
            return Some(Mime::Video3gpp2);
        }
        if str_eq(ext, "mpd") {
            return Some(Mime::ApplicationDash);
        }
        None
    }

    /// Look a media type up by a path's file-name extension; fails exactly
    /// when the path has no extension or no table row carries it.
    pub fn from_path(path: &str) -> (r: Option<Mime>)
        ensures
            r matches Some(m) ==> (spec_path_ext(path@) matches Some(e) && e == spec_ext_str(m)),
            r is None ==> (spec_path_ext(path@) is None || (spec_path_ext(path@) matches Some(e)
                && forall|m: Mime| e != spec_ext_str(m))),
    {
        let n = path.unicode_len();
        let mut i: usize = 0;
        let mut dot: usize = 0;
        let mut has_dot = false;
        let mut slash: usize = 0;
        let mut has_slash = false;
        while i < n
            invariant
                i <= n,
                n == path@.len(),
                has_dot ==> (dot < i && path@[dot as int] == '.'),
                forall|j: int| (if has_dot { dot + 1 } else { 0 }) <= j < i ==> path@[j] != '.',
                has_slash ==> (slash < i && path@[slash as int] == '/'),
                forall|j: int| (if has_slash { slash + 1 } else { 0 }) <= j < i ==> path@[j] != '/',
            decreases n - i,
        {
            let c = path.get_char(i);
            if c == '.' {
                dot = i;
                has_dot = true;
            }
            if c == '/' {
                slash = i;
                has_slash = true;
            }
            i = i + 1;
        }
        proof {
            lemma_last_pos(path@, '.');
            lemma_last_pos(path@, '/');
            if has_dot {
                assert(spec_last_pos(path@, '.') == dot);
            } else {
                assert(spec_last_pos(path@, '.') == -1);
            }
            if has_slash {
                assert(spec_last_pos(path@, '/') == slash);
            } else {
                assert(spec_last_pos(path@, '/') == -1);
            }
        }
        if !has_dot {
            return None;
        }
        if has_slash && dot <= slash + 1 {
            return None;
        }
        if !has_slash && dot == 0 {
            return None;
        }
        let ext = path.substring_char(dot + 1, n);
        Mime::from_ext(ext)
    }

    /// The high-level category.
    pub fn media_type(&self) -> (r: MimeType)
        ensures
            r == spec_mime_type(*self),
    {
        match *self {
            Mime::ApplicationOctetStream => MimeType::Application,
            Mime::ApplicationMsword => MimeType::Application,
            Mime::ApplicationEpub => MimeType::Application,
            Mime::ApplicationGzip => MimeType::Application,
            Mime::ApplicationJavaArchive => MimeType::Application,
            Mime::ApplicationJson => MimeType::Application,
            Mime::ApplicationPdf => MimeType::Application,
            Mime::ApplicationRtf => MimeType::Application,
            Mime::ApplicationXhtml => MimeType::Application,
            Mime::ApplicationXml => MimeType::Application,
            Mime::ApplicationZip => MimeType::Application,
            Mime::ApplicationBzip => MimeType::Application,
            Mime::ApplicationBzip2 => MimeType::Application,
            Mime::ApplicationTar => MimeType::Application,
            Mime::AudioAac => MimeType::Audio,
            Mime::AudioMidi => MimeType::Audio,
            Mime::AudioMpeg => MimeType::Audio,
            Mime::AudioOgg => MimeType::Audio,
            Mime::AudioOpus => MimeType::Audio,
            Mime::AudioWav => MimeType::Audio,
            Mime::AudioWebm => MimeType::Audio,
            Mime::FontOtf => MimeType::Font,
            Mime::FontTtf => MimeType::Font,
            Mime::FontWoff => MimeType::Font,
            Mime::FontWoff2 => MimeType::Font,
            Mime::ImageAvif => MimeType::Image,
            Mime::ImageBmp => MimeType::Image,
            Mime::ImageGif => MimeType::Image,
            Mime::ImageJpeg => MimeType::Image,
            Mime::ImagePng => MimeType::Image,
            Mime::ImageSvg => MimeType::Image,
            Mime::ImageTiff => MimeType::Image,
            Mime::ImageWebp => MimeType::Image,
            Mime::TextCss => MimeType::Text,
            Mime::TextCsv => MimeType::Text,
            Mime::TextHtml => MimeType::Text,
            Mime::TextCalendar => MimeType::Text,
            Mime::TextJavascript => MimeType::Text,
            Mime::TextPlain => MimeType::Text,
            Mime::VideoMp4 => MimeType::Video,
            Mime::VideoMpeg => MimeType::Video,
            Mime::VideoOgg => MimeType::Video,
            Mime::VideoMp2t => MimeType::Video,
            Mime::VideoWebm => MimeType::Video,
            Mime::Video3gpp => MimeType::Video,
            Mime::Video3gpp2 => MimeType::Video,
            Mime::ApplicationDash => MimeType::Application,
        }
    }

    /// The IANA media-type string.
    pub fn mime(&self) -> (r: &'static str)
        ensures
            r@ == spec_mime_str(*self),
    {
        match *self {
            Mime::ApplicationOctetStream => "application/octet-stream",
            Mime::ApplicationMsword => "application/msword",
            Mime::ApplicationEpub => "application/epub+zip",
            Mime::ApplicationGzip => "application/gzip",
            Mime::ApplicationJavaArchive => "application/java-archive",
            Mime::ApplicationJson => "application/json",
            Mime::ApplicationPdf => "application/pdf",
            Mime::ApplicationRtf => "application/rtf",
            Mime::ApplicationXhtml => "application/xhtml+xml",
            Mime::ApplicationXml => "application/xml",
            Mime::ApplicationZip => "application/zip",
            Mime::ApplicationBzip => "application/x-bzip",
            Mime::ApplicationBzip2 => "application/x-bzip2",
            Mime::ApplicationTar => "application/x-tar",
            Mime::AudioAac => "audio/aac",
            Mime::AudioMidi => "audio/midi",
            Mime::AudioMpeg => "audio/mpeg",
            Mime::AudioOgg => "audio/ogg",
            Mime::AudioOpus => "audio/opus",
            Mime::AudioWav => "audio/wav",
            Mime::AudioWebm => "audio/webm",
            Mime::FontOtf => "font/otf",
            Mime::FontTtf => "font/ttf",
            Mime::FontWoff => "font/woff",
            Mime::FontWoff2 => "font/woff2",
            Mime::ImageAvif => "image/avif",
            Mime::ImageBmp => "image/bmp",
            Mime::ImageGif => "image/gif",
            Mime::ImageJpeg => "image/jpeg",
            Mime::ImagePng => "image/png",
            Mime::ImageSvg => "image/svg+xml",
            Mime::ImageTiff => "image/tiff",
            Mime::ImageWebp => "image/webp",
            Mime::TextCss => "text/css",
            Mime::TextCsv => "text/csv",
            Mime::TextHtml => "text/html",
            Mime::TextCalendar => "text/calendar",
            Mime::TextJavascript => "text/javascript",
            Mime::TextPlain => "text/plain",
            Mime::VideoMp4 => "video/mp4",
            Mime::VideoMpeg => "video/mpeg",
            Mime::VideoOgg => "video/ogg",
            Mime::VideoMp2t => "video/mp2t",
            Mime::VideoWebm => "video/webm",
            Mime::Video3gpp => "video/3gpp",
            Mime::Video3gpp2 => "video/3gpp2",
            Mime::ApplicationDash => "application/dash+xml",
        }
    }

    /// The file extension.
    pub fn extension(&self) -> (r: &'static str)
        ensures
            r@ == spec_ext_str(*self),
    {
        match *self {
            Mime::ApplicationOctetStream => "bin",
            Mime::ApplicationMsword => "doc",
            Mime::ApplicationEpub => "epub",
            Mime::ApplicationGzip => "gz",
            Mime::ApplicationJavaArchive => "jar",
            Mime::ApplicationJson => "json",
            Mime::ApplicationPdf => "pdf",
            Mime::ApplicationRtf => "rtf",
            Mime::ApplicationXhtml => "xhtml",
            Mime::ApplicationXml => "xml",
            Mime::ApplicationZip => "zip",
            Mime::ApplicationBzip => "bz",
            Mime::ApplicationBzip2 => "bz2",
            Mime::ApplicationTar => "tar",
            Mime::AudioAac => "aac",
            Mime::AudioMidi => "midi",
            Mime::AudioMpeg => "mp3",
            Mime::AudioOgg => "oga",
            Mime::AudioOpus => "opus",
            Mime::AudioWav => "wav",
            Mime::AudioWebm => "weba",
            Mime::FontOtf => "otf",
            Mime::FontTtf => "ttf",
            Mime::FontWoff => "woff",
            Mime::FontWoff2 => "woff2",
            Mime::ImageAvif => "avif",
            Mime::ImageBmp => "bmp",
            Mime::ImageGif => "gif",
            Mime::ImageJpeg => "jpg",
            Mime::ImagePng => "png",
            Mime::ImageSvg => "svg",
            Mime::ImageTiff => "tiff",
            Mime::ImageWebp => "webp",
            Mime::TextCss => "css",
            Mime::TextCsv => "csv",
            Mime::TextHtml => "html",
            Mime::TextCalendar => "ics",
            Mime::TextJavascript => "js",
            Mime::TextPlain => "txt",
            Mime::VideoMp4 => "mp4",
            Mime::VideoMpeg => "mpeg",
            Mime::VideoOgg => "ogv",
            Mime::VideoMp2t => "ts",
            Mime::VideoWebm => "webm",
            Mime::Video3gpp => "3gp",
            Mime::Video3gpp2 => "3g2",
            Mime::ApplicationDash => "mpd",
        }
    }
}

impl Default for Mime {
    /// The default media type: `application/octet-stream`, code 0.
    fn default() -> (r: Mime)
        ensures
            r == Mime::ApplicationOctetStream,
    {
        Mime::ApplicationOctetStream
    }
}

/// Codes round-trip: looking a type's own code up finds the same type.
pub proof fn lemma_mime_code_roundtrip(m: Mime)
    ensures
        spec_mime_of_code(spec_mime_code(m)) == Some(m),
{
}

} // verus!
