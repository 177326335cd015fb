use vstd::prelude::*;

verus! {

/// Per-variant technical metadata of a registry file entry.
pub struct CivitaiFileMetadata {
    pub format: String,
    pub fp: Option<String>,
    pub size: Option<String>,
}

/// The mathematical image of a `CivitaiFileMetadata`.
pub struct FileMetadataModel {
    pub format: Seq<char>,
    pub fp: Option<Seq<char>>,
    pub size: Option<Seq<char>>,
}

impl View for CivitaiFileMetadata {
    type V = FileMetadataModel;

    open spec fn view(&self) -> FileMetadataModel {
        FileMetadataModel {
            format: self.format@,
            fp: match self.fp {
                Some(ref s) => Some(s@),
                None => None,
            },
            size: match self.size {
                Some(ref s) => Some(s@),
                None => None,
            },
        }
    }
}

/// The registry's model descriptor.
pub struct CivitaiModel {
    pub name: String,
    pub nsfw: bool,
    pub poi: bool,
    pub model_type: String,
}

/// The mathematical image of a `CivitaiModel`.
pub struct CivitaiModelModel {
    pub name: Seq<char>,
    pub nsfw: bool,
    pub poi: bool,
    pub model_type: Seq<char>,
}

impl View for CivitaiModel {
    type V = CivitaiModelModel;

    open spec fn view(&self) -> CivitaiModelModel {
        CivitaiModelModel {
            name: self.name@,
            nsfw: self.nsfw,
            poi: self.poi,
            model_type: self.model_type@,
        }
    }
}

/// One file variant of a sidecar document: its hash and its metadata.
pub struct FileVariant {
    pub hash_blake3: String,
    pub metadata: CivitaiFileMetadata,
}

/// The mathematical image of a `FileVariant`.
pub struct FileVariantModel {
    pub hash_blake3: Seq<char>,
    pub metadata: FileMetadataModel,
}

impl View for FileVariant {
    type V = FileVariantModel;

    open spec fn view(&self) -> FileVariantModel {
        FileVariantModel { hash_blake3: self.hash_blake3@, metadata: self.metadata@ }
    }
}

/// A sidecar metadata document, reduced to what the merge reads: the base
/// model tag and the file variants.
pub struct Sidecar {
    pub base_model: String,
    pub files: Vec<FileVariant>,
}

impl Sidecar {
    /// The variant views.
    pub open spec fn files_view(&self) -> Seq<FileVariantModel> {
        self.files@.map_values(|f: FileVariant| f@)
    }
}

/// The metadata of an absent variant: all defaults.
pub open spec fn default_metadata() -> FileMetadataModel {
    FileMetadataModel { format: Seq::empty(), fp: None, size: None }
}

/// Index of the last variant whose hash matches `h` case-insensitively
/// (`h` already lower-cased), or -1.
pub open spec fn last_hash_match(files: Seq<FileVariantModel>, h: Seq<char>) -> int
    decreases files.len(),
{
    if files.len() == 0 {
        -1
    } else if crate::text::lower_seq(files.last().hash_blake3) == h {
        files.len() - 1
    } else {
        last_hash_match(files.drop_last(), h)
    }
}

proof fn lemma_last_hash_match_found(files: Seq<FileVariantModel>, h: Seq<char>, i: int)
    requires
        0 <= i < files.len(),
        crate::text::lower_seq(files[i].hash_blake3) == h,
        forall|k: int|
            i < k < files.len() ==> crate::text::lower_seq((#[trigger] files[k]).hash_blake3)
                != h,
    ensures
        last_hash_match(files, h) == i,
    decreases files.len(),
{
    if i < files.len() - 1 {
        let t = files.drop_last();
        assert(t[i] == files[i]);
        assert forall|k: int|
            i < k < t.len() implies crate::text::lower_seq((#[trigger] t[k]).hash_blake3) != h by {
            assert(t[k] == files[k]);
        }
        lemma_last_hash_match_found(t, h, i);
    }
}

proof fn lemma_last_hash_match_absent(files: Seq<FileVariantModel>, h: Seq<char>)
    requires
        forall|k: int|
            0 <= k < files.len() ==> crate::text::lower_seq((#[trigger] files[k]).hash_blake3)
                != h,
    ensures
        last_hash_match(files, h) == -1,
    decreases files.len(),
{
    if files.len() > 0 {
        let t = files.drop_last();
        assert forall|k: int|
            0 <= k < t.len() implies crate::text::lower_seq((#[trigger] t[k]).hash_blake3)
                != h by {
            assert(t[k] == files[k]);
        }
        lemma_last_hash_match_absent(t, h);
    }
}

/// What the merge selects: the content hash to store and the variant
/// metadata to use.
pub open spec fn spec_merge(
    files: Seq<FileVariantModel>,
    disk_hash: Option<Seq<char>>,
) -> (Seq<char>, FileMetadataModel) {
    if files.len() == 0 {
        (Seq::empty(), default_metadata())
    } else if files.len() == 1 || disk_hash is None {
        (crate::text::lower_seq(files[0].hash_blake3), files[0].metadata)
    } else {
        let h = crate::text::lower_seq(disk_hash->Some_0);
        let i = last_hash_match(files, h);
        (h, if i >= 0 {
            files[i].metadata
        } else {
            files[0].metadata
        })
    }
}

fn clone_metadata(m: &CivitaiFileMetadata) -> (r: CivitaiFileMetadata)
    ensures
        r@ == m@,
{
    CivitaiFileMetadata {
        format: m.format.clone(),
        fp: match &m.fp {
            Some(s) => Some(s.clone()),
            None => None,
        },
        size: match &m.size {
            Some(s) => Some(s.clone()),
            None => None,
        },
    }
}

/// Selects the content hash and variant metadata of a sidecar document.
/// With one variant (or no computed disk hash) the first variant's own hash
/// and metadata are used; with several, the on-disk content hash decides by
/// a case-insensitive match over the variants' hashes, falling back to the
/// first variant when none matches.  A missing or empty document yields
/// empty defaults, so one bad sidecar never stops a scan.  When several
/// variants are listed but the on-disk hash could not be computed, the
/// first variant's listed hash is deliberately kept instead of storing an
/// empty one: a listed hash is still a usable content key.
pub fn merge(sidecar: &Sidecar, disk_hash: Option<&str>) -> (r: (String, CivitaiFileMetadata))
    ensures
        (r.0@, r.1@) == spec_merge(
            sidecar.files_view(),
            match disk_hash {
                Some(h) => Some(h@),
                None => None,
            },
        ),
{
    let nf = sidecar.files.len();
    if nf == 0 {
        return (String::new(), CivitaiFileMetadata { format: String::new(), fp: None, size: None });
    }
    match disk_hash {
        Some(h) if nf > 1 => {
            let hl = crate::text::lower_str(h);
            let mut found: Option<usize> = None;
            let mut k: usize = 0;
            while k < nf
                invariant
                    k <= nf,
                    nf == sidecar.files_view().len(),
                    hl@ == crate::text::lower_seq(h@),
                    match found {
                        Some(i) => i < k && crate::text::lower_seq(
                            sidecar.files_view()[i as int].hash_blake3,
                        ) == hl@ && forall|j: int|
                            i < j < k ==> crate::text::lower_seq(
                                (#[trigger] sidecar.files_view()[j]).hash_blake3,
                            ) != hl@,
                        None => forall|j: int|
                            0 <= j < k ==> crate::text::lower_seq(
                                (#[trigger] sidecar.files_view()[j]).hash_blake3,
                            ) != hl@,
                    },
                decreases nf - k,
            {
                let fh = crate::text::lower_str(sidecar.files[k].hash_blake3.as_str());
                if crate::text::str_eq(fh.as_str(), hl.as_str()) {
                    found = Some(k);
                }
                k = k + 1;
            }
            match found {
                Some(i) => {
                    proof {
                        lemma_last_hash_match_found(sidecar.files_view(), hl@, i as int);
                    }
                    (hl, clone_metadata(&sidecar.files[i].metadata))
                },
                None => {
                    proof {
                        lemma_last_hash_match_absent(sidecar.files_view(), hl@);
                    }
                    (hl, clone_metadata(&sidecar.files[0].metadata))
                },
            }
        },
        _ => {
            let hl = crate::text::lower_str(sidecar.files[0].hash_blake3.as_str());
            (hl, clone_metadata(&sidecar.files[0].metadata))
        },
    }
}

/// The on-disk hash is only needed when several variants must be told
/// apart.
pub fn needs_disk_hash(sidecar: &Sidecar) -> (r: bool)
    ensures
        r == (sidecar.files_view().len() > 1),
{
    sidecar.files.len() > 1
}

/// The tag candidates derived from a merged record, in order: the extra
/// tags (the base-model tag among them) and the model type, all normalized,
/// the nsfw and poi flag tags when set, the normalized file format, and the
/// precision and size fields as given.
pub open spec fn spec_derive_tags(
    extras: Seq<Seq<char>>,
    model: CivitaiModelModel,
    fm: FileMetadataModel,
) -> Seq<Seq<char>> {
    extras.map_values(|e: Seq<char>| crate::text::norm_seq(e)) + seq![
        crate::text::norm_seq(model.model_type),
    ] + (if model.nsfw {
        seq!["nsfw"@]
    } else {
        Seq::empty()
    }) + (if model.poi {
        seq!["poi"@]
    } else {
        Seq::empty()
    }) + seq![crate::text::norm_seq(fm.format)] + (match fm.fp {
        Some(fp) => seq![fp],
        None => Seq::empty(),
    }) + (match fm.size {
        Some(sz) => seq![sz],
        None => Seq::empty(),
    })
}

/// Derives the tag candidates of a merged record.
pub fn derive_tags(extra_tags: &Vec<String>, model: &CivitaiModel, fm: &CivitaiFileMetadata) -> (r:
    Vec<String>)
    ensures
        r.deep_view() == spec_derive_tags(extra_tags.deep_view(), model@, fm@),
{
    let mut r: Vec<String> = Vec::new();
    let ne = extra_tags.len();
    let mut i: usize = 0;
    while i < ne
        invariant
            i <= ne,
            ne == extra_tags.deep_view().len(),
            r.deep_view() == extra_tags.deep_view().take(i as int).map_values(
                |e: Seq<char>| crate::text::norm_seq(e),
            ),
        decreases ne - i,
    {
        r.push(crate::text::normalize_tag(extra_tags[i].as_str()));
        proof {
            assert(extra_tags.deep_view().take(i + 1 as int) =~= extra_tags.deep_view().take(
                i as int,
            ).push(extra_tags.deep_view()[i as int]));
            assert(r.deep_view() =~= extra_tags.deep_view().take(i as int).map_values(
                |e: Seq<char>| crate::text::norm_seq(e),
            ).push(crate::text::norm_seq(extra_tags.deep_view()[i as int])));
            assert(extra_tags.deep_view().take(i + 1 as int).map_values(
                |e: Seq<char>| crate::text::norm_seq(e),
            ) =~= extra_tags.deep_view().take(i as int).map_values(
                |e: Seq<char>| crate::text::norm_seq(e),
            ).push(crate::text::norm_seq(extra_tags.deep_view()[i as int])));
        }
        i = i + 1;
    }
    proof {
        assert(extra_tags.deep_view().take(ne as int) =~= extra_tags.deep_view());
    }
    r.push(crate::text::normalize_tag(model.model_type.as_str()));
    if model.nsfw {
        r.push(String::from_str("nsfw"));
    }
    if model.poi {
        r.push(String::from_str("poi"));
    }
    r.push(crate::text::normalize_tag(fm.format.as_str()));
    match &fm.fp {
        Some(fp) => r.push(fp.clone()),
        None => {},
    }
    match &fm.size {
        Some(sz) => r.push(sz.clone()),
        None => {},
    }
    proof {
        assert(r.deep_view() =~= spec_derive_tags(extra_tags.deep_view(), model@, fm@));
    }
    r
}

} // verus!
