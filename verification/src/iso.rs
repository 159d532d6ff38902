//! The calls into `hadris_iso`, which lays out and writes the image.

use vstd::prelude::*;
use hadris_iso::boot::options::BootOptions;
use hadris_iso::joliet::JolietLevel;
use hadris_iso::read::PathSeparator;
use hadris_iso::rrip::RripOptions;
use hadris_iso::write::options::{BaseIsoLevel, CreationFeatures, FormatOptions, HybridBootOptions};
use hadris_iso::write::{File, InputFiles, IsoCreationError, IsoImageWriter};
use std::sync::Arc;
use crate::builder::{iso_options, is_volume_label};
use crate::tree::{directory_count, iso_files_of, node_count, TreeNode};

verus! {

#[verifier::external_type_specification]
#[verifier::external_body]
pub struct ExIsoFile(File);

#[verifier::external_type_specification]
#[verifier::external_body]
pub struct ExFormatOptions(FormatOptions);

#[verifier::external_type_specification]
#[verifier::external_body]
pub struct ExCreationFeatures(CreationFeatures);

#[verifier::external_type_specification]
#[verifier::external_body]
pub struct ExBaseIsoLevel(BaseIsoLevel);

#[verifier::external_type_specification]
#[verifier::external_body]
pub struct ExJolietLevel(JolietLevel);

#[verifier::external_type_specification]
#[verifier::external_body]
pub struct ExRripOptions(RripOptions);

#[verifier::external_type_specification]
#[verifier::external_body]
pub struct ExBootOptions(BootOptions);

#[verifier::external_type_specification]
#[verifier::external_body]
pub struct ExHybridBootOptions(HybridBootOptions);

#[verifier::external_type_specification]
#[verifier::external_body]
pub struct ExPathSeparator(PathSeparator);

#[verifier::external_type_specification]
#[verifier::external_body]
pub struct ExIsoCreationError(IsoCreationError);

/// The `hadris_iso` file node `File::File` with the given name and contents.
pub uninterp spec fn iso_file_node(name: Seq<char>, contents: Seq<u8>) -> File;

/// The `hadris_iso` directory node `File::Directory` with the given name
/// and children.
pub uninterp spec fn iso_directory_node(name: Seq<char>, children: Seq<File>) -> File;

/// The `BaseIsoLevel::Level2` value of `hadris_iso` with the two flags.
pub uninterp spec fn level2_filenames_of(supports_lowercase: bool, supports_rrip: bool) -> BaseIsoLevel;

/// The `JolietLevel` of `hadris_iso` with the given number (1 to 3).
pub uninterp spec fn joliet_level_of(level: u8) -> JolietLevel;

/// The `RripOptions` of `hadris_iso` with the given fields.
pub uninterp spec fn rrip_options_of(
    enabled: bool,
    relocate_deep_dirs: bool,
    preserve_permissions: bool,
    preserve_ownership: bool,
    preserve_timestamps: bool,
    preserve_symlinks: bool,
    preserve_devices: bool,
) -> RripOptions;

/// The `PathSeparator` of `hadris_iso`: forward slash or backslash.
pub uninterp spec fn path_separator_of(forward: bool) -> PathSeparator;

/// The `CreationFeatures` of `hadris_iso` with the given fields.
pub uninterp spec fn creation_features_of(
    filenames: BaseIsoLevel,
    long_filenames: bool,
    joliet: Option<JolietLevel>,
    rock_ridge: Option<RripOptions>,
    el_torito: Option<BootOptions>,
    hybrid_boot: Option<HybridBootOptions>,
) -> CreationFeatures;

/// The `FormatOptions` of `hadris_iso` with the given fields.
pub uninterp spec fn format_options_of(
    volume_name: Seq<char>,
    system_id: Option<Seq<char>>,
    volume_set_id: Option<Seq<char>>,
    publisher_id: Option<Seq<char>>,
    preparer_id: Option<Seq<char>>,
    application_id: Option<Seq<char>>,
    sector_size: usize,
    features: CreationFeatures,
    path_separator: PathSeparator,
    strict_charset: bool,
) -> FormatOptions;

/// Whether `image` is a buffer that `IsoImageWriter::format_new` of
/// `hadris_iso` may hand back after writing `files` into a cursor over
/// `buffer` with the separator and options. The writer stamps the current
/// time into the image, so this is a relation, not a function: it only ties
/// the image to what the writer was given.
pub uninterp spec fn written_by_writer(
    image: Seq<u8>,
    buffer: Seq<u8>,
    files: Seq<File>,
    path_separator: PathSeparator,
    options: FormatOptions,
) -> bool;

/// Whether `IsoImageWriter::format_new` of `hadris_iso` may fail on these
/// arguments (it does, for example, on a tree deeper than eight levels).
pub uninterp spec fn refused_by_writer(
    buffer: Seq<u8>,
    files: Seq<File>,
    path_separator: PathSeparator,
    options: FormatOptions,
) -> bool;

/// The values of optional strings.
pub open spec fn option_view(o: Option<String>) -> Option<Seq<char>> {
    match o {
        Some(s) => Some(s@),
        None => None,
    }
}

/// Builds the variant `File::File { name, contents }` of `hadris_iso`; the
/// value is named by [`iso_file_node`].
#[verifier::external_body]
pub(crate) fn iso_file(name: String, contents: Vec<u8>) -> (f: File)
    ensures
        f == iso_file_node(name@, contents@),
{
    File::File { name: Arc::new(name), contents }
}

/// Builds the variant `File::Directory { name, children }` of `hadris_iso`;
/// the value is named by [`iso_directory_node`].
#[verifier::external_body]
pub(crate) fn iso_directory(name: String, children: Vec<File>) -> (f: File)
    ensures
        f == iso_directory_node(name@, children@),
{
    File::Directory { name: Arc::new(name), children }
}

/// Builds the variant `BaseIsoLevel::Level2` of `hadris_iso`.
#[verifier::external_body]
pub(crate) fn level2_filenames(supports_lowercase: bool, supports_rrip: bool) -> (r: BaseIsoLevel)
    ensures
        r == level2_filenames_of(supports_lowercase, supports_rrip),
{
    BaseIsoLevel::Level2 { supports_lowercase, supports_rrip }
}

/// The variant of `JolietLevel` of `hadris_iso` whose number is `level`.
#[verifier::external_body]
pub(crate) fn joliet_level(level: u8) -> (r: JolietLevel)
    requires
        1 <= level <= 3,
    ensures
        r == joliet_level_of(level),
{
    match level {
        1 => JolietLevel::Level1,
        2 => JolietLevel::Level2,
        _ => JolietLevel::Level3,
    }
}

/// Builds an `RripOptions` of `hadris_iso` from its fields.
#[verifier::external_body]
pub(crate) fn rrip_options(
    enabled: bool,
    relocate_deep_dirs: bool,
    preserve_permissions: bool,
    preserve_ownership: bool,
    preserve_timestamps: bool,
    preserve_symlinks: bool,
    preserve_devices: bool,
) -> (r: RripOptions)
    ensures
        r == rrip_options_of(
            enabled,
            relocate_deep_dirs,
            preserve_permissions,
            preserve_ownership,
            preserve_timestamps,
            preserve_symlinks,
            preserve_devices,
        ),
{
    RripOptions {
        enabled, relocate_deep_dirs, preserve_permissions, preserve_ownership, preserve_timestamps,
        preserve_symlinks, preserve_devices,
    }
}

/// The variant `PathSeparator::ForwardSlash` (or `Backslash`) of `hadris_iso`.
#[verifier::external_body]
pub(crate) fn path_separator(forward: bool) -> (r: PathSeparator)
    ensures
        r == path_separator_of(forward),
{
    if forward { PathSeparator::ForwardSlash } else { PathSeparator::Backslash }
}

/// Builds a `CreationFeatures` of `hadris_iso` from its fields.
#[verifier::external_body]
pub(crate) fn creation_features(
    filenames: BaseIsoLevel,
    long_filenames: bool,
    joliet: Option<JolietLevel>,
    rock_ridge: Option<RripOptions>,
    el_torito: Option<BootOptions>,
    hybrid_boot: Option<HybridBootOptions>,
) -> (r: CreationFeatures)
    ensures
        r == creation_features_of(filenames, long_filenames, joliet, rock_ridge, el_torito, hybrid_boot),
{
    CreationFeatures { filenames, long_filenames, joliet, rock_ridge, el_torito, hybrid_boot }
}

/// Builds a `FormatOptions` of `hadris_iso` from its fields.
#[verifier::external_body]
pub(crate) fn format_options(
    volume_name: String,
    system_id: Option<String>,
    volume_set_id: Option<String>,
    publisher_id: Option<String>,
    preparer_id: Option<String>,
    application_id: Option<String>,
    sector_size: usize,
    features: CreationFeatures,
    path_separator: PathSeparator,
    strict_charset: bool,
) -> (r: FormatOptions)
    ensures
        r == format_options_of(
            volume_name@,
            option_view(system_id),
            option_view(volume_set_id),
            option_view(publisher_id),
            option_view(preparer_id),
            option_view(application_id),
            sector_size,
            features,
            path_separator,
            strict_charset,
        ),
{
    FormatOptions {
        volume_name, system_id, volume_set_id, publisher_id, preparer_id, application_id, sector_size,
        features, path_separator, strict_charset,
    }
}

/// Calls `IsoImageWriter::format_new` of `hadris_iso` on a
/// `std::io::Cursor` over `buffer` and hands back the buffer. The writer
/// numbers the directories in a `u16` and, with Rock Ridge, the entries in a
/// `u32`, so the tree is limited to fewer than 65535 directories and fewer
/// than 4294967295 nodes, where those counters cannot overflow. The writer
/// stamps the current time into the image, so the bytes are not named; what
/// is claimed is that they are an image the writer may produce from these
/// arguments, and what a cursor over a vector does: it overwrites bytes and
/// appends, so the buffer never shrinks. The writer builds its volume
/// descriptors with an unwrap that fails on a volume name longer than 32
/// bytes, so the options are those of [`iso_options`] for a finished volume
/// label (at most 32 ASCII characters).
#[verifier::external_body]
pub(crate) fn write_image(
    buffer: Vec<u8>,
    files: Vec<File>,
    path_separator: PathSeparator,
    options: FormatOptions,
) -> (r: Result<Vec<u8>, IsoCreationError>)
    requires
        exists|t: Seq<TreeNode>, c: Seq<Seq<u8>>|
            files@ == #[trigger] iso_files_of(t, c) && directory_count(t) < 65535 && node_count(t) < 4294967295,
        exists|label: Seq<char>| options == #[trigger] iso_options(label) && is_volume_label(label),
    ensures
        match r {
            Ok(image) => image@.len() >= buffer@.len()
                && written_by_writer(image@, buffer@, files@, path_separator, options),
            Err(_) => refused_by_writer(buffer@, files@, path_separator, options),
        },
{
    let mut cursor = std::io::Cursor::new(buffer);
    let input = InputFiles { path_separator, files };
    match IsoImageWriter::format_new(&mut cursor, input, options) {
        Ok(()) => Ok(cursor.into_inner()),
        Err(e) => Err(e),
    }
}

/// The text of an `IsoCreationError` of `hadris_iso`, as its `Display`
/// writes it. Nothing is claimed of it.
#[verifier::external_body]
pub(crate) fn creation_error_text(e: &IsoCreationError) -> String {
    format!("{}", e)
}

} // verus!
