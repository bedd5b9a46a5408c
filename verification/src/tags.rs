//! Reading the tags of an audio file from its bytes, with the lofty crate.

use lofty::prelude::{Accessor, AudioFile, TaggedFileExt};
use vstd::prelude::*;
use crate::music::TagInfo;

verus! {

/// The text fields of one tag, each `None` where the tag lacks it.
pub struct TagFields {
    pub artist: Option<String>,
    pub title: Option<String>,
    pub album: Option<String>,
}

/// What lofty reads from a file: its primary tag, its first tag, and the duration in whole
/// seconds.
pub struct RawTags {
    pub primary: Option<TagFields>,
    pub first: Option<TagFields>,
    pub duration_secs: u64,
}

/// The characters of an optional string.
pub open spec fn opt_text(s: Option<String>) -> Option<Seq<char>> {
    match s {
        Some(x) => Some(x@),
        None => None,
    }
}

/// A tag's fields as characters.
pub open spec fn fields_view(f: TagFields) -> (Option<Seq<char>>, Option<Seq<char>>, Option<Seq<char>>) {
    (opt_text(f.artist), opt_text(f.title), opt_text(f.album))
}

/// An optional tag's fields as characters.
pub open spec fn opt_fields_view(f: Option<TagFields>) -> Option<(Option<Seq<char>>, Option<Seq<char>>, Option<Seq<char>>)> {
    match f {
        Some(x) => Some(fields_view(x)),
        None => None,
    }
}

/// What lofty reads, as plain values.
pub open spec fn raw_view(r: RawTags) -> (
    Option<(Option<Seq<char>>, Option<Seq<char>>, Option<Seq<char>>)>,
    Option<(Option<Seq<char>>, Option<Seq<char>>, Option<Seq<char>>)>,
    u64,
) {
    (opt_fields_view(r.primary), opt_fields_view(r.first), r.duration_secs)
}

/// What lofty reads from the bytes of a file of the given extension: the fields of its primary
/// tag and of its first tag, and its duration in whole seconds; `None` where the extension
/// names no format lofty knows or the bytes do not parse as that format.
pub uninterp spec fn lofty_tags(bytes: Seq<u8>, ext: Seq<char>) -> Option<
    (
        Option<(Option<Seq<char>>, Option<Seq<char>>, Option<Seq<char>>)>,
        Option<(Option<Seq<char>>, Option<Seq<char>>, Option<Seq<char>>)>,
        u64,
    ),
>;

/// `lofty::file::FileType::from_ext`, `lofty::probe::Probe::with_file_type` over the bytes and
/// `read`, then the tag accessors `primary_tag`, `first_tag`, `artist`, `title`, `album` and
/// `properties().duration()`. The result depends on the bytes and the extension alone and is
/// named, not stated.
#[verifier::external_body]
fn lofty_read(bytes: &[u8], ext: &str) -> (r: Option<RawTags>)
    ensures
        match r {
            Some(t) => lofty_tags(bytes@, ext@) == Some(raw_view(t)),
            None => lofty_tags(bytes@, ext@) is None,
        },
{
    let file_type = lofty::file::FileType::from_ext(ext)?;
    let probe = lofty::probe::Probe::with_file_type(std::io::Cursor::new(bytes), file_type);
    let file = probe.read().ok()?;
    let fields = |t: &lofty::tag::Tag| TagFields {
        artist: t.artist().map(|v| v.to_string()),
        title: t.title().map(|v| v.to_string()),
        album: t.album().map(|v| v.to_string()),
    };
    let primary = file.primary_tag().map(fields);
    let first = file.first_tag().map(fields);
    Some(RawTags { primary, first, duration_secs: file.properties().duration().as_secs() })
}

/// The text of an optional field, empty when absent.
pub open spec fn text_or_empty(s: Option<Seq<char>>) -> Seq<char> {
    match s {
        Some(x) => x,
        None => Seq::empty(),
    }
}

/// The tags of a file from what lofty read: the primary tag, or else the first tag, with
/// missing fields empty; `None` when lofty read nothing or the file has no tag.
pub open spec fn tags_from(raw: Option<
    (
        Option<(Option<Seq<char>>, Option<Seq<char>>, Option<Seq<char>>)>,
        Option<(Option<Seq<char>>, Option<Seq<char>>, Option<Seq<char>>)>,
        u64,
    ),
>) -> Option<(Seq<char>, Seq<char>, Seq<char>, u64)> {
    match raw {
        None => None,
        Some(r) => {
            let tag = if r.0 is Some {
                r.0
            } else {
                r.1
            };
            match tag {
                None => None,
                Some(f) => Some((text_or_empty(f.0), text_or_empty(f.1), text_or_empty(f.2), r.2)),
            }
        },
    }
}

fn take_text(s: Option<String>) -> (r: String)
    ensures
        r@ == text_or_empty(opt_text(s)),
{
    match s {
        Some(x) => x,
        None => String::new(),
    }
}

/// Reads the tags of an audio file from its bytes; `ext` is the extension of its name, which
/// decides the format. The primary tag is taken, or else the first one; missing fields are
/// empty.
pub fn read_tags_from_bytes(bytes: &[u8], ext: &str) -> (r: Option<TagInfo>)
    ensures
        match r {
            Some(t) => tags_from(lofty_tags(bytes@, ext@)) == Some((t.artist@, t.title@, t.album@, t.duration)),
            None => tags_from(lofty_tags(bytes@, ext@)) is None,
        },
{
    match lofty_read(bytes, ext) {
        None => None,
        Some(raw) => {
            let duration = raw.duration_secs;
            let tag = match raw.primary {
                Some(p) => Some(p),
                None => raw.first,
            };
            match tag {
                None => None,
                Some(f) => Some(
                    TagInfo {
                        artist: take_text(f.artist),
                        title: take_text(f.title),
                        album: take_text(f.album),
                        duration,
                    },
                ),
            }
        },
    }
}

} // verus!
