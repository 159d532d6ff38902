use iso_maker::builder::{
    build_iso_image, checked_estimate_size, estimate_size, finish_image, image_options, sanitize_volume_label,
    trim_image, trimmed_image_len, ISO_OVERHEAD,
};
use iso_maker::state::{file_progress, FileEntry};
use iso_maker::tree::{build_tree, count_tree, IsoNode};

fn entry(name: &str, iso_path: &str, size: u64) -> FileEntry {
    FileEntry { name: name.to_string(), path: format!("/tmp/{}", name), iso_path: iso_path.to_string(), size }
}

#[test]
fn estimate_of_no_files_is_the_overhead() {
    assert_eq!(estimate_size(&[]), 2 * 1024 * 1024);
    assert_eq!(ISO_OVERHEAD, 2097152);
}

#[test]
fn estimate_rounds_each_file_up_to_sectors() {
    let files = vec![entry("a", "/A", 1), entry("b", "/B", 2048), entry("c", "/C", 2049), entry("d", "/D", 0)];
    assert_eq!(estimate_size(&files), 2097152 + 2048 + 2048 + 4096);
}

#[test]
fn estimate_grows_by_the_rounded_size_of_an_added_file() {
    let mut files = vec![entry("a", "/A", 100)];
    let before = estimate_size(&files);
    files.push(entry("b", "/B", 5000));
    assert_eq!(estimate_size(&files), before + 6144);
}

#[test]
fn estimate_covers_every_byte() {
    let files = vec![entry("a", "/A", 3), entry("b", "/B", 4097)];
    let est = estimate_size(&files);
    assert!(est >= ISO_OVERHEAD + 3 + 4097);
    assert_eq!((est - ISO_OVERHEAD) % 2048, 0);
}

#[test]
fn checked_estimate_agrees_and_reports_overflow() {
    let files = vec![entry("a", "/A", 10)];
    assert_eq!(checked_estimate_size(&files), Some(estimate_size(&files)));
    let huge = vec![entry("a", "/A", u64::MAX - 10)];
    assert_eq!(checked_estimate_size(&huge), None);
    let two = vec![entry("a", "/A", u64::MAX / 2), entry("b", "/B", u64::MAX / 2)];
    assert_eq!(checked_estimate_size(&two), None);
}

#[test]
fn label_is_uppercased_and_filtered() {
    assert_eq!(sanitize_volume_label("my iso"), "MY ISO");
    assert_eq!(sanitize_volume_label("a-b_c.d"), "AB_CD");
    assert_eq!(sanitize_volume_label("Data 2024!"), "DATA 2024");
}

#[test]
fn label_falls_back_to_cdrom() {
    assert_eq!(sanitize_volume_label(""), "CDROM");
    assert_eq!(sanitize_volume_label("!!!"), "CDROM");
    assert_eq!(sanitize_volume_label("中文"), "CDROM");
}

#[test]
fn label_keeps_at_most_32_characters() {
    let long = "abcdefghijklmnopqrstuvwxyz0123456789";
    let r = sanitize_volume_label(long);
    assert_eq!(r, "ABCDEFGHIJKLMNOPQRSTUVWXYZ012345");
    assert_eq!(r.chars().count(), 32);
}

#[test]
fn label_uses_unicode_uppercase_before_filtering() {
    // 'ß' uppercases to "SS", which is kept; 'é' becomes 'É', which is not.
    assert_eq!(sanitize_volume_label("straße"), "STRASSE");
    assert_eq!(sanitize_volume_label("café"), "CAF");
}

#[test]
fn clean_label_is_kept() {
    assert_eq!(sanitize_volume_label("BACKUP_01"), "BACKUP_01");
    let once = sanitize_volume_label("hello world!");
    assert_eq!(sanitize_volume_label(&once), once);
}

#[test]
fn label_shape_holds() {
    for l in ["", "x", "a very long label that goes on and on and on", "__--__", "Ünïcödé"] {
        let r = sanitize_volume_label(l);
        let n = r.chars().count();
        assert!(n >= 1 && n <= 32);
        assert!(r.chars().all(|c| c.is_ascii_alphanumeric() || c == ' ' || c == '_'));
    }
}

#[test]
fn trim_cuts_after_data_rounded_to_sectors() {
    let mut image = vec![0u8; 8192];
    image[0] = 1;
    image[2049] = 7;
    assert_eq!(trimmed_image_len(&image), Some(4096));
    let out = trim_image(image.clone());
    assert_eq!(out.len(), 4096);
    assert_eq!(&out[..], &image[..4096]);
}

#[test]
fn trim_of_all_zero_image_is_empty() {
    let image = vec![0u8; 4096];
    assert_eq!(trimmed_image_len(&image), Some(0));
    assert_eq!(trim_image(image).len(), 0);
}

#[test]
fn trim_keeps_a_full_sector_image() {
    let image = vec![5u8; 2048];
    assert_eq!(trimmed_image_len(&image), Some(2048));
    assert_eq!(trim_image(image).len(), 2048);
}

#[test]
fn trim_refuses_an_image_that_ends_mid_sector() {
    let image = vec![5u8; 3000];
    assert_eq!(trimmed_image_len(&image), None);
}

#[test]
fn finish_reports_unaligned_image() {
    let r = finish_image(Ok(vec![9u8; 100]));
    assert_eq!(r, Err("ISO 构建失败: 镜像长度越界".to_string()));
}

#[test]
fn finish_trims_an_aligned_image() {
    let mut v = vec![0u8; 6144];
    v[10] = 1;
    assert_eq!(finish_image(Ok(v)).unwrap().len(), 2048);
}

#[test]
fn finish_prefixes_writer_errors() {
    let err = hadris_iso::write::IsoCreationError::Io(std::io::Error::new(std::io::ErrorKind::Other, "disk on fire"));
    let r = finish_image(Err(err)).unwrap_err();
    assert!(r.starts_with("ISO 构建失败: "));
    assert!(r.contains("disk on fire"));
}

#[test]
fn build_writes_a_sector_aligned_iso() {
    let files = vec![entry("hello.txt", "/HELLO.TXT", 5), entry("b.txt", "/docs/b.txt", 3)];
    let contents = vec![b"hello".to_vec(), b"bbb".to_vec()];
    let image = build_iso_image("test disk", &files, contents).expect("image");
    assert!(image.len() > 0);
    assert_eq!(image.len() % 2048, 0);
    // The primary volume descriptor lies in sector 16.
    assert_eq!(&image[16 * 2048 + 1..16 * 2048 + 6], b"CD001");
    // The sanitised label is its volume identifier.
    let label = &image[16 * 2048 + 40..16 * 2048 + 49];
    assert_eq!(label, b"TEST DISK");
    let haystack = String::from_utf8_lossy(&image);
    assert!(haystack.contains("hello"));
    assert!(haystack.contains("bbb"));
}

#[test]
fn build_of_no_files_still_writes_an_image() {
    let image = build_iso_image("", &[], vec![]).expect("image");
    assert_eq!(image.len() % 2048, 0);
    assert_eq!(&image[16 * 2048 + 40..16 * 2048 + 45], b"CDROM");
}

#[test]
fn build_writes_joliet_and_rock_ridge() {
    let files = vec![entry("readme.txt", "/readme.txt", 4), entry("x.bin", "/dir/x.bin", 2)];
    let contents = vec![b"read".to_vec(), b"xx".to_vec()];
    let image = build_iso_image("Disk", &files, contents).expect("image");
    // Sector 17 holds the descriptor of the long (level 3) names, sector 18
    // the Joliet descriptor, both supplementary (type 2).
    assert_eq!(image[17 * 2048], 2);
    assert_eq!(&image[17 * 2048 + 1..17 * 2048 + 6], b"CD001");
    assert_eq!(image[18 * 2048], 2);
    // Joliet level 3 escape sequence.
    assert_eq!(&image[18 * 2048 + 88..18 * 2048 + 91], b"%/E");
    // The set ends with the terminator in sector 19.
    assert_eq!(image[19 * 2048], 255);
    // Rock Ridge keeps the original lowercase name in an NM entry.
    let haystack = String::from_utf8_lossy(&image);
    assert!(haystack.contains("readme.txt"));
    assert!(haystack.contains("RR") || haystack.contains("PX"));
}

#[test]
fn build_label_is_the_sanitised_label() {
    let image = build_iso_image("my-backup 2024!", &[], vec![]).expect("image");
    assert_eq!(&image[16 * 2048 + 40..16 * 2048 + 54], b"MYBACKUP 2024 ");
}

#[test]
fn image_options_carry_the_features() {
    let o = image_options("LABEL".to_string());
    assert_eq!(o.volume_name, "LABEL");
    assert_eq!(o.sector_size, 2048);
    assert!(o.features.long_filenames);
    assert!(matches!(o.features.joliet, Some(hadris_iso::joliet::JolietLevel::Level3)));
    let rr = o.features.rock_ridge.expect("rock ridge");
    assert!(rr.enabled && rr.relocate_deep_dirs && rr.preserve_permissions);
    assert!(matches!(
        o.features.filenames,
        hadris_iso::write::options::BaseIsoLevel::Level2 { supports_lowercase: true, supports_rrip: true }
    ));
    assert!(o.features.el_torito.is_none() && o.features.hybrid_boot.is_none());
    assert!(o.system_id.is_none() && o.application_id.is_none());
    assert!(!o.strict_charset);
}

#[test]
fn tree_counts_directories_and_nodes() {
    let files = vec![entry("a", "/x/y/a", 1), entry("b", "/x/b", 1), entry("c", "/c", 1)];
    let tree = build_tree(&files);
    // Directories x and x/y; nodes: c, x, y, a, b.
    assert_eq!(count_tree(&tree), (2, 5));
    let empty: Vec<IsoNode> = vec![];
    assert_eq!(count_tree(&empty), (0, 0));
}

#[test]
fn build_refuses_a_tree_with_too_many_directories() {
    // 256 top directories, each with a chain of 255 directories below it.
    let chain = "c/".repeat(255);
    let files: Vec<FileEntry> = (0..256).map(|i| entry("f", &format!("/e{}/{}f", i, chain), 0)).collect();
    assert_eq!(count_tree(&build_tree(&files)).0, 65536);
    let contents = vec![Vec::new(); files.len()];
    let r = build_iso_image("big", &files, contents);
    assert_eq!(r.unwrap_err(), "ISO 构建失败: 目录过多");
}

#[test]
fn progress_reports_one_per_file() {
    let files = vec![entry("a.txt", "/a.txt", 1), entry("b.txt", "/b.txt", 2)];
    let reports = file_progress(&files);
    assert_eq!(reports.len(), 2);
    assert_eq!((reports[0].current, reports[0].total, reports[0].filename.as_str()), (1, 2, "a.txt"));
    assert_eq!((reports[1].current, reports[1].total, reports[1].filename.as_str()), (2, 2, "b.txt"));
    assert_eq!(reports[1].message, "正在添加 b.txt (2/2)");
    assert_eq!(reports[0].status, "working");
    assert!(file_progress(&[]).is_empty());
}

#[test]
fn label_is_uppercase_and_clean() {
    let l = sanitize_volume_label("straße 99");
    assert_eq!(l, "STRASSE 99");
    assert!(l.chars().all(|c| c.is_ascii_uppercase() || c.is_ascii_digit() || c == ' ' || c == '_'));
}

#[test]
fn label_sanitising_is_idempotent() {
    for raw in ["hello world", "", "ünïcödé", "a_b-c", "0123456789012345678901234567890123456789"] {
        let once = sanitize_volume_label(raw);
        assert_eq!(sanitize_volume_label(&once), once);
    }
}

#[test]
fn estimate_of_joined_lists() {
    let a = vec![entry("a", "/A", 10), entry("b", "/B", 4097)];
    let b = vec![entry("c", "/C", 2048)];
    let joined: Vec<FileEntry> = a.iter().chain(b.iter()).cloned().collect();
    assert_eq!(estimate_size(&joined) + ISO_OVERHEAD, estimate_size(&a) + estimate_size(&b));
    let reversed: Vec<FileEntry> = joined.iter().rev().cloned().collect();
    assert_eq!(estimate_size(&reversed), estimate_size(&joined));
    let renamed: Vec<FileEntry> = joined.iter().map(|e| entry("z", "/z/z", e.size)).collect();
    assert_eq!(estimate_size(&renamed), estimate_size(&joined));
}

#[test]
fn build_with_a_long_label_writes_its_first_32_characters() {
    let raw = "abcdefghijklmnopqrstuvwxyz0123456789extra";
    let image = build_iso_image(raw, &[], vec![]).expect("image");
    assert_eq!(&image[16 * 2048 + 40..16 * 2048 + 72], b"ABCDEFGHIJKLMNOPQRSTUVWXYZ012345");
}
