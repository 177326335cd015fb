use vstd::prelude::*;

verus! {

/// The canonical preview-image extension.
pub const PREVIEW_EXT: &'static str = "jpeg";

/// The broad kind of a preview file, as detected from its bytes.
#[derive(PartialEq, Eq, Structural, Clone, Copy, Debug)]
pub enum FileType {
    NA,
    Video,
    Image,
}

/// Relies on infer::get and infer::Type::matcher_type: the kind of matcher
/// that recognized the buffer's magic bytes, mapped to video, image, or
/// neither.
#[verifier::external_body]
pub fn file_type(data: &[u8]) -> FileType {
    match infer::get(data).map(|t| t.matcher_type()) {
        Some(infer::MatcherType::Video) => FileType::Video,
        Some(infer::MatcherType::Image) => FileType::Image,
        _ => FileType::NA,
    }
}

/// What to do with a downloaded preview asset of the detected kind.
#[derive(PartialEq, Eq, Structural, Clone, Copy, Debug)]
pub enum PreviewAction {
    MakeVideoThumbnail,
    RenameToCanonical,
    Keep,
}

/// The disposition of a downloaded preview: a video gets a still-frame
/// thumbnail; an image under a non-canonical extension is renamed to the
/// canonical one; anything else is left alone.
pub fn preview_disposition(ft: FileType, ext_is_canonical: bool) -> (r: PreviewAction)
    ensures
        r == (match ft {
            FileType::Video => PreviewAction::MakeVideoThumbnail,
            FileType::Image => if ext_is_canonical {
                PreviewAction::Keep
            } else {
                PreviewAction::RenameToCanonical
            },
            FileType::NA => PreviewAction::Keep,
        }),
{
    match ft {
        FileType::Video => PreviewAction::MakeVideoThumbnail,
        FileType::Image => if ext_is_canonical {
            PreviewAction::Keep
        } else {
            PreviewAction::RenameToCanonical
        },
        FileType::NA => PreviewAction::Keep,
    }
}

/// Registry metadata is fetched when no sidecar exists yet or overwriting
/// is configured.
pub fn needs_metadata_fetch(sidecar_exists: bool, overwrite_json: bool) -> (r: bool)
    ensures
        r == (!sidecar_exists || overwrite_json),
{
    !sidecar_exists || overwrite_json
}

/// A registry response is an error exactly when its error field is present
/// and non-empty; the message is then handed back.
pub fn registry_response_error(err_field: Option<&str>) -> (r: Option<String>)
    ensures
        match err_field {
            Some(e) => if e@.len() > 0 {
                r matches Some(msg) && msg@ == e@
            } else {
                r is None
            },
            None => r is None,
        },
{
    match err_field {
        Some(e) => if e.unicode_len() > 0 {
            Some(e.to_owned())
        } else {
            None
        },
        None => None,
    }
}

/// A preview asset is downloaded when none exists yet or overwriting is
/// configured.
pub fn should_download_preview(preview_exists: bool, overwrite_thumbnail: bool) -> (r: bool)
    ensures
        r == (!preview_exists || overwrite_thumbnail),
{
    !preview_exists || overwrite_thumbnail
}

/// Index of the last occurrence of `c` in `s`, or -1.
pub open spec fn last_index_of(s: Seq<char>, c: char) -> int
    decreases s.len(),
{
    if s.len() == 0 {
        -1
    } else if s.last() == c {
        s.len() - 1
    } else {
        last_index_of(s.drop_last(), c)
    }
}

pub proof fn lemma_last_index_found(s: Seq<char>, c: char, i: int)
    requires
        0 <= i < s.len(),
        s[i] == c,
        forall|k: int| i < k < s.len() ==> s[k] != c,
    ensures
        last_index_of(s, c) == i,
    decreases s.len(),
{
    if i < s.len() - 1 {
        let t = s.drop_last();
        assert(t[i] == s[i]);
        assert forall|k: int| i < k < t.len() implies t[k] != c by {
            assert(t[k] == s[k]);
        }
        lemma_last_index_found(t, c, i);
    }
}

pub proof fn lemma_last_index_absent(s: Seq<char>, c: char)
    requires
        forall|k: int| 0 <= k < s.len() ==> s[k] != c,
    ensures
        last_index_of(s, c) == -1,
    decreases s.len(),
{
    if s.len() > 0 {
        let t = s.drop_last();
        assert forall|k: int| 0 <= k < t.len() implies t[k] != c by {
            assert(t[k] == s[k]);
        }
        lemma_last_index_absent(t, c);
    }
}

fn find_last(s: &str, c: char) -> (r: Option<usize>)
    ensures
        match r {
            Some(i) => last_index_of(s@, c) == i && i < s@.len(),
            None => last_index_of(s@, c) == -1,
        },
{
    let n = s.unicode_len();
    let mut i: usize = n;
    while i > 0
        invariant
            i <= n,
            n == s@.len(),
            forall|k: int| i <= k < n ==> s@[k] != c,
        decreases i,
    {
        i = i - 1;
        if s.get_char(i) == c {
            proof {
                lemma_last_index_found(s@, c, i as int);
            }
            return Some(i);
        }
    }
    proof {
        lemma_last_index_absent(s@, c);
    }
    None
}

/// The extension of the file named by the last segment of a URL: the part
/// of that segment after its final dot, none when the segment has no dot or
/// only a leading one.
pub open spec fn spec_ext_from_url(u: Seq<char>) -> Option<Seq<char>> {
    let seg = u.skip(last_index_of(u, '/') + 1);
    let d = last_index_of(seg, '.');
    if d <= 0 {
        None
    } else {
        Some(seg.skip(d + 1))
    }
}

/// The extension of the file a URL points at, by its last path segment.
pub fn get_extension_from_url(url: &str) -> (r: Option<String>)
    ensures
        match r {
            Some(e) => spec_ext_from_url(url@) == Some(e@),
            None => spec_ext_from_url(url@) is None,
        },
{
    let n = url.unicode_len();
    let seg_start: usize = match find_last(url, '/') {
        Some(i) => i + 1,
        None => 0,
    };
    let seg = url.substring_char(seg_start, n);
    proof {
        assert(seg@ =~= url@.skip(last_index_of(url@, '/') + 1));
    }
    match find_last(seg, '.') {
        Some(d) => {
            if d == 0 {
                None
            } else {
                let m = seg.unicode_len();
                let e = seg.substring_char(d + 1, m).to_owned();
                proof {
                    assert(e@ =~= seg@.skip(d + 1));
                }
                Some(e)
            }
        },
        None => None,
    }
}

} // verus!
