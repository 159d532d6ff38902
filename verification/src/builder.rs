use vstd::prelude::*;
use crate::iso::{
    creation_error_text, creation_features, creation_features_of, format_options, format_options_of, joliet_level,
    joliet_level_of, level2_filenames, level2_filenames_of, path_separator, path_separator_of, refused_by_writer,
    rrip_options, rrip_options_of, write_image, written_by_writer,
};
use hadris_iso::boot::options::BootOptions;
use hadris_iso::write::options::{CreationFeatures, FormatOptions, HybridBootOptions};
use crate::state::{entries_view, FileEntry};
use crate::tree::{
    build_tree, contents_view, count_tree, directory_count, iso_files_of, lemma_tree_sources, node_count, to_iso_files,
    tree_of, TreeNode,
};
use hadris_iso::write::IsoCreationError;
use crate::text::{
    chars_of, concat, is_ascii_lowercase, is_label_char, label_char, push_char, to_uppercase, uppercase_of,
};

verus! {

/// Room reserved for the volume descriptors, path tables and directories.
pub const ISO_OVERHEAD: u64 = 2097152;

/// Size of one logical sector of the image.
pub const SECTOR_SIZE: u64 = 2048;

/// The size of a file rounded up to whole sectors.
pub open spec fn sector_rounded(size: u64) -> int {
    ((size + 2047) / 2048) * 2048
}

/// The sum of the sector-rounded sizes of the files.
pub open spec fn rounded_total(files: Seq<FileEntry>) -> int
    decreases files.len(),
{
    if files.len() == 0 {
        0
    } else {
        rounded_total(files.drop_last()) + sector_rounded(files.last().size)
    }
}

/// The estimated size of an image holding the files.
pub open spec fn estimated_size(files: Seq<FileEntry>) -> int {
    ISO_OVERHEAD + rounded_total(files)
}

proof fn lemma_sector_rounded_bounds(size: u64)
    ensures
        size <= sector_rounded(size) < size + 2048,
        sector_rounded(size) % 2048 == 0,
{
    let q = (size + 2047) / 2048;
    assert(q * 2048 <= size + 2047 < q * 2048 + 2048) by (nonlinear_arith)
        requires q == (size + 2047) / 2048;
    assert((q * 2048) % 2048 == 0) by (nonlinear_arith);
}

proof fn lemma_rounded_total_prefix(files: Seq<FileEntry>, i: int)
    requires
        0 <= i <= files.len(),
    ensures
        0 <= rounded_total(files.take(i)) <= rounded_total(files),
    decreases files.len(),
{
    if files.len() > 0 {
        lemma_sector_rounded_bounds(files.last().size);
        if i == files.len() {
            assert(files.take(i) =~= files);
            lemma_rounded_total_prefix(files.drop_last(), i - 1);
        } else {
            assert(files.take(i) =~= files.drop_last().take(i));
            lemma_rounded_total_prefix(files.drop_last(), i);
        }
    }
}

/// Estimates the size of the image: a fixed overhead of 2 MiB plus every
/// file rounded up to whole 2048-byte sectors.
pub fn estimate_size(files: &[FileEntry]) -> (r: u64)
    requires
        estimated_size(files@) <= u64::MAX,
    ensures
        r == estimated_size(files@),
{
    let overhead: u64 = ISO_OVERHEAD;
    let mut data: u64 = 0;
    let mut i: usize = 0;
    proof { lemma_rounded_total_prefix(files@, files@.len() as int); }
    while i < files.len()
        invariant
            i <= files@.len(),
            data == rounded_total(files@.take(i as int)),
            estimated_size(files@) <= u64::MAX,
        decreases files@.len() - i,
    {
        let size = files[i].size;
        proof {
            lemma_rounded_total_prefix(files@, i + 1);
            assert(files@.take(i + 1).drop_last() =~= files@.take(i as int));
            lemma_sector_rounded_bounds(size);
        }
        let sectors = (size + 2047) / 2048;
        data = data + sectors * 2048;
        i = i + 1;
    }
    proof { assert(files@.take(i as int) =~= files@); }
    overhead + data
}

/// The estimate of [`estimate_size`], or `None` when it does not fit in a
/// `u64` (where `estimate_size` cannot be called).
pub fn checked_estimate_size(files: &[FileEntry]) -> (r: Option<u64>)
    ensures
        r == (if estimated_size(files@) <= u64::MAX { Some(estimated_size(files@) as u64) } else { None::<u64> }),
{
    let mut total: u64 = ISO_OVERHEAD;
    let mut i: usize = 0;
    while i < files.len()
        invariant
            i <= files@.len(),
            total == ISO_OVERHEAD + rounded_total(files@.take(i as int)),
        decreases files@.len() - i,
    {
        let size = files[i].size;
        proof {
            assert(files@.take(i + 1).drop_last() =~= files@.take(i as int));
            lemma_sector_rounded_bounds(size);
            lemma_rounded_total_prefix(files@, i + 1);
            lemma_rounded_total_prefix(files@, files@.len() as int);
            assert(files@.take(files@.len() as int) =~= files@);
        }
        let rem = size % 2048;
        let rounded = if rem == 0 {
            Some(size)
        } else {
            (size - rem).checked_add(2048)
        };
        proof {
            assert(size == (size / 2048) * 2048 + size % 2048) by (nonlinear_arith);
            assert(((size + 2047) / 2048) * 2048 == if size % 2048 == 0 { size as int } else { size - size % 2048 + 2048 })
                by (nonlinear_arith)
                requires size == (size / 2048) * 2048 + size % 2048, size % 2048 < 2048;
        }
        match rounded {
            Some(r) => {
                match total.checked_add(r) {
                    Some(t) => total = t,
                    None => return None,
                }
            },
            None => return None,
        }
        i = i + 1;
    }
    proof { assert(files@.take(i as int) =~= files@); }
    Some(total)
}

/// The sum of the sizes of the files.
pub open spec fn size_sum(files: Seq<FileEntry>) -> int
    decreases files.len(),
{
    if files.len() == 0 {
        0
    } else {
        size_sum(files.drop_last()) + files.last().size
    }
}

/// Adding a file grows the estimate by the file's size rounded up to whole
/// sectors.
pub proof fn law_estimate_grows(files: Seq<FileEntry>, f: FileEntry)
    ensures
        estimated_size(files.push(f)) == estimated_size(files) + sector_rounded(f.size),
{
    assert(files.push(f).drop_last() =~= files);
}

/// The estimate is the overhead plus whole sectors, and leaves room for the
/// overhead and every byte of every file.
pub proof fn law_estimate_covers(files: Seq<FileEntry>)
    ensures
        estimated_size(files) >= ISO_OVERHEAD + size_sum(files),
        (estimated_size(files) - ISO_OVERHEAD) % 2048 == 0,
    decreases files.len(),
{
    if files.len() > 0 {
        law_estimate_covers(files.drop_last());
        lemma_sector_rounded_bounds(files.last().size);
        let a = rounded_total(files.drop_last());
        let b = sector_rounded(files.last().size);
        assert((a + b) % 2048 == 0) by (nonlinear_arith)
            requires a % 2048 == 0, b % 2048 == 0;
    }
}

/// The estimate of two lists joined is the sum of their estimates, less
/// the overhead counted twice.
pub proof fn law_estimate_concat(a: Seq<FileEntry>, b: Seq<FileEntry>)
    ensures
        estimated_size(a + b) + ISO_OVERHEAD == estimated_size(a) + estimated_size(b),
    decreases b.len(),
{
    if b.len() == 0 {
        assert(a + b =~= a);
    } else {
        law_estimate_concat(a, b.drop_last());
        assert((a + b).drop_last() =~= a + b.drop_last());
        assert((a + b).last() == b.last());
    }
}

/// The estimate depends on the sizes of the files alone: names and paths
/// play no part.
pub proof fn law_estimate_sizes_only(a: Seq<FileEntry>, b: Seq<FileEntry>)
    requires
        a.len() == b.len(),
        forall|i: int| 0 <= i < a.len() ==> (#[trigger] a[i]).size == b[i].size,
    ensures
        estimated_size(a) == estimated_size(b),
    decreases a.len(),
{
    if a.len() > 0 {
        assert forall|i: int| 0 <= i < a.len() - 1 implies (#[trigger] a.drop_last()[i]).size == b.drop_last()[i].size by {
            assert(a.drop_last()[i] == a[i] && b.drop_last()[i] == b[i]);
        }
        law_estimate_sizes_only(a.drop_last(), b.drop_last());
        assert(a.last().size == b[b.len() - 1].size);
    }
}

proof fn lemma_rounded_total_remove(s: Seq<FileEntry>, k: int)
    requires
        0 <= k < s.len(),
    ensures
        rounded_total(s) == rounded_total(s.remove(k)) + sector_rounded(s[k].size),
    decreases s.len(),
{
    if k == s.len() - 1 {
        assert(s.remove(k) =~= s.drop_last());
    } else {
        lemma_rounded_total_remove(s.drop_last(), k);
        assert(s.remove(k).drop_last() =~= s.drop_last().remove(k));
        assert(s.remove(k).last() == s.last());
    }
}

/// The estimate does not depend on the order of the files: two lists with
/// the same files, each as often, have the same estimate.
pub proof fn law_estimate_permutation(a: Seq<FileEntry>, b: Seq<FileEntry>)
    requires
        a.to_multiset() == b.to_multiset(),
    ensures
        estimated_size(a) == estimated_size(b),
    decreases a.len(),
{
    broadcast use vstd::seq_lib::group_to_multiset_ensures;
    if a.len() == 0 {
        assert(b.to_multiset().len() == 0);
        assert(b =~= Seq::<FileEntry>::empty());
    } else {
        let x = a.last();
        assert(a.remove(a.len() - 1) =~= a.drop_last());
        assert(a.drop_last().to_multiset() == a.to_multiset().remove(x));
        assert(a.contains(x)) by {
            assert(a[a.len() - 1] == x);
        }
        assert(b.to_multiset().count(x) > 0);
        assert(b.contains(x));
        let k = choose|k: int| 0 <= k < b.len() && b[k] == x;
        assert(b.remove(k).to_multiset() == b.to_multiset().remove(b[k]));
        law_estimate_permutation(a.drop_last(), b.remove(k));
        lemma_rounded_total_remove(b, k);
    }
}

/// The longest volume label that is kept.
pub const LABEL_MAX: usize = 32;

/// At most the first 32 characters of `s`.
pub open spec fn at_most_label_max(s: Seq<char>) -> Seq<char> {
    if s.len() <= 32 {
        s
    } else {
        s.take(32)
    }
}

/// The label used when nothing of the requested one is kept.
pub open spec fn default_label() -> Seq<char> {
    seq!['C', 'D', 'R', 'O', 'M']
}

/// The volume label made from an already uppercased label: the characters
/// that are ASCII letters, digits, spaces or underscores, at most 32 of them,
/// or `CDROM` when none is left.
pub open spec fn sanitized_label(upper: Seq<char>) -> Seq<char> {
    let kept = at_most_label_max(upper.filter(|c: char| is_label_char(c)));
    if kept.len() == 0 {
        default_label()
    } else {
        kept
    }
}

/// A character of a finished volume label: an ASCII uppercase letter or
/// digit, a space or an underscore.
pub open spec fn is_volume_label_char(c: char) -> bool {
    ('A' <= c && c <= 'Z') || ('0' <= c && c <= '9') || c == ' ' || c == '_'
}

/// A finished volume label: 1 to 32 characters of [`is_volume_label_char`].
pub open spec fn is_volume_label(s: Seq<char>) -> bool {
    1 <= s.len() <= 32 && forall|i: int| 0 <= i < s.len() ==> is_volume_label_char(#[trigger] s[i])
}

/// Normalises a volume label: uppercase it, keep only ASCII letters and
/// digits, spaces and underscores, cut it to 32 characters, and fall back to
/// `CDROM` when nothing is left. The result is a finished volume label, and a
/// finished label is kept as it is, so normalising twice is normalising once.
pub fn sanitize_volume_label(label: &str) -> (r: String)
    ensures
        r@ == sanitized_label(uppercase_of(label@)),
        is_volume_label(r@),
        is_volume_label(label@) ==> r@ == label@,
{
    let upper = to_uppercase(label);
    let chars = chars_of(upper.as_str());
    let ghost p = |c: char| is_label_char(c);
    let mut kept = String::new();
    let mut count: usize = 0;
    let mut i: usize = 0;
    while i < chars.len()
        invariant
            i <= chars@.len(),
            chars@ == uppercase_of(label@),
            p == (|c: char| is_label_char(c)),
            kept@ == at_most_label_max(chars@.take(i as int).filter(p)),
            count == kept@.len(),
        decreases chars@.len() - i,
    {
        let c = chars[i];
        proof {
            reveal_with_fuel(Seq::filter, 1);
            assert(chars@.take(i + 1).drop_last() =~= chars@.take(i as int));
        }
        if label_char(c) && count < LABEL_MAX {
            push_char(&mut kept, c);
            count = count + 1;
        }
        proof {
            let before = chars@.take(i as int).filter(p);
            let after = chars@.take(i + 1).filter(p);
            if is_label_char(c) {
                assert(after == before.push(c));
                if before.len() < 32 {
                    assert(at_most_label_max(after) =~= at_most_label_max(before).push(c));
                } else {
                    assert(at_most_label_max(after) =~= at_most_label_max(before));
                }
            } else {
                assert(after == before);
            }
        }
        i = i + 1;
    }
    proof {
        assert(chars@.take(i as int) =~= chars@);
        lemma_label_of_uppercase(chars@);
        if is_volume_label(label@) {
            assert forall|j: int| 0 <= j < label@.len() implies (#[trigger] label@[j] as u32) < 128 by {
                assert(is_volume_label_char(label@[j]));
            }
            assert(chars@ =~= label@) by {
                assert forall|j: int| 0 <= j < label@.len() implies chars@[j] == label@[j] by {
                    assert(is_volume_label_char(label@[j]));
                }
            }
            law_label_keeps_clean(chars@);
        }
    }
    if count == 0 {
        let mut d = String::new();
        push_char(&mut d, 'C');
        push_char(&mut d, 'D');
        push_char(&mut d, 'R');
        push_char(&mut d, 'O');
        push_char(&mut d, 'M');
        proof { assert(d@ =~= default_label()); }
        d
    } else {
        kept
    }
}

/// The length of `s` up to and including its last non-zero byte.
pub open spec fn data_len(s: Seq<u8>) -> nat
    decreases s.len(),
{
    if s.len() == 0 {
        0
    } else if s.last() != 0 {
        s.len()
    } else {
        data_len(s.drop_last())
    }
}

/// `n` rounded up to whole sectors.
pub open spec fn sector_aligned(n: nat) -> nat {
    ((n + 2047) / 2048 * 2048) as nat
}

/// The length that a written image is cut to: its data, rounded up to
/// whole sectors.
pub open spec fn trimmed_len(image: Seq<u8>) -> nat {
    sector_aligned(data_len(image))
}

pub proof fn lemma_data_len(s: Seq<u8>)
    ensures
        data_len(s) <= s.len(),
        forall|i: int| data_len(s) <= i < s.len() ==> #[trigger] s[i] == 0,
        data_len(s) > 0 ==> s[data_len(s) - 1] != 0,
    decreases s.len(),
{
    if s.len() > 0 {
        lemma_data_len(s.drop_last());
        assert forall|i: int| data_len(s) <= i < s.len() implies #[trigger] s[i] == 0 by {
            if i < s.len() - 1 {
                assert(s.drop_last()[i] == s[i]);
            }
        }
    }
}

proof fn lemma_sector_aligned(n: nat)
    ensures
        n <= sector_aligned(n) < n + 2048,
        sector_aligned(n) % 2048 == 0,
        n % 2048 == 0 ==> sector_aligned(n) == n,
        n % 2048 != 0 ==> sector_aligned(n) == n - n % 2048 + 2048,
{
    let q = (n + 2047) / 2048;
    assert(q * 2048 <= n + 2047 < q * 2048 + 2048) by (nonlinear_arith)
        requires q == (n + 2047) / 2048;
    assert((q * 2048) % 2048 == 0) by (nonlinear_arith);
    assert(n == (n / 2048) * 2048 + n % 2048) by (nonlinear_arith);
    if n % 2048 == 0 {
        assert(q == n / 2048) by (nonlinear_arith)
            requires q == (n + 2047) / 2048, n % 2048 == 0, n == (n / 2048) * 2048 + n % 2048;
    } else {
        assert(q == n / 2048 + 1) by (nonlinear_arith)
            requires q == (n + 2047) / 2048, n % 2048 != 0, n == (n / 2048) * 2048 + n % 2048, n % 2048 < 2048;
    }
}

/// The length an image is cut to, when it does not exceed the image.
pub fn trimmed_image_len(image: &Vec<u8>) -> (r: Option<usize>)
    ensures
        r == (if trimmed_len(image@) <= image@.len() { Some(trimmed_len(image@) as usize) } else { None::<usize> }),
{
    let n = image.len();
    let mut end = n;
    proof { assert(image@.take(n as int) =~= image@); }
    while end > 0 && image[end - 1] == 0
        invariant
            end <= n == image@.len(),
            data_len(image@) == data_len(image@.take(end as int)),
        decreases end,
    {
        proof {
            assert(image@.take(end as int).drop_last() =~= image@.take(end - 1));
            assert(image@.take(end as int).last() == image@[end - 1]);
        }
        end = end - 1;
    }
    proof {
        if end > 0 {
            assert(image@.take(end as int).last() == image@[end - 1]);
        }
        assert(data_len(image@) == end);
        lemma_sector_aligned(end as nat);
    }
    let rem = end % 2048;
    if rem == 0 {
        Some(end)
    } else if n - (end - rem) >= 2048 {
        Some(end - rem + 2048)
    } else {
        None
    }
}

/// Cuts a written image after its last non-zero byte, rounded up to whole
/// 2048-byte sectors.
pub fn trim_image(image: Vec<u8>) -> (r: Vec<u8>)
    requires
        trimmed_len(image@) <= image@.len(),
    ensures
        r@ == image@.take(trimmed_len(image@) as int),
{
    let len = trimmed_image_len(&image);
    let mut image = image;
    match len {
        Some(l) => {
            image.truncate(l);
            image
        },
        None => {
            proof { assert(false); }
            image
        },
    }
}

/// The message of a failed build when the writer hands back an image whose
/// data, rounded up to whole sectors, runs past its end.
pub open spec fn unaligned_image_message() -> Seq<char> {
    "ISO 构建失败: 镜像长度越界"@
}

/// The start of the message of a failed build.
pub open spec fn build_failure_prefix() -> Seq<char> {
    "ISO 构建失败: "@
}

/// What becomes of the writer's result: an image is cut to its data
/// rounded up to whole sectors; an error of the writer becomes a message
/// that starts with `ISO 构建失败: `.
pub fn finish_image(written: Result<Vec<u8>, IsoCreationError>) -> (r: Result<Vec<u8>, String>)
    ensures
        match written {
            Ok(image) => if trimmed_len(image@) <= image@.len() {
                r matches Ok(out) && out@ == image@.take(trimmed_len(image@) as int)
            } else {
                r matches Err(msg) && msg@ == unaligned_image_message()
            },
            Err(_) => r matches Err(msg) && msg@.len() >= build_failure_prefix().len()
                && msg@.take(build_failure_prefix().len() as int) == build_failure_prefix(),
        },
{
    match written {
        Ok(image) => {
            match trimmed_image_len(&image) {
                Some(_) => Ok(trim_image(image)),
                None => Err(String::from_str("ISO 构建失败: 镜像长度越界")),
            }
        },
        Err(e) => {
            let text = creation_error_text(&e);
            let msg = concat("ISO 构建失败: ", text.as_str());
            proof { assert(msg@.take(build_failure_prefix().len() as int) =~= build_failure_prefix()); }
            Err(msg)
        },
    }
}

/// A sanitised label has 1 to 32 characters, each an ASCII letter or
/// digit, a space or an underscore.
pub proof fn law_label_shape(upper: Seq<char>)
    ensures
        1 <= sanitized_label(upper).len() <= 32,
        forall|i: int| 0 <= i < sanitized_label(upper).len() ==> is_label_char(#[trigger] sanitized_label(upper)[i]),
{
    let p = |c: char| is_label_char(c);
    let kept = upper.filter(p);
    assert forall|i: int| 0 <= i < kept.len() implies is_label_char(#[trigger] kept[i]) by {
        upper.lemma_filter_pred(p, i);
    }
    let r = sanitized_label(upper);
    if at_most_label_max(kept).len() == 0 {
        assert(r == default_label());
        assert forall|i: int| 0 <= i < r.len() implies is_label_char(#[trigger] r[i]) by {}
    }
}

/// The label characters of `s`, in order.
pub open spec fn label_chars(s: Seq<char>) -> Seq<char> {
    s.filter(|c: char| is_label_char(c))
}

/// The label keeps the label characters of the uppercased label in order,
/// as many as there are up to 32: a label character is kept whenever fewer
/// than 32 label characters come before it, at the place given by how many
/// do; the label is that long, and it is `CDROM` only when the uppercased
/// label has no label character at all.
pub proof fn law_label_keeps_leading_label_chars(upper: Seq<char>)
    ensures
        label_chars(upper).len() == 0 ==> sanitized_label(upper) == seq!['C', 'D', 'R', 'O', 'M'],
        label_chars(upper).len() > 0 ==> sanitized_label(upper).len() == if label_chars(upper).len() < 32 {
            label_chars(upper).len()
        } else {
            32
        },
        forall|i: int|
            0 <= i < upper.len() && is_label_char(upper[i]) && (#[trigger] label_chars(upper.take(i))).len() < 32
                ==> sanitized_label(upper)[label_chars(upper.take(i)).len() as int] == upper[i],
{
    let p = |c: char| is_label_char(c);
    let f = upper.filter(p);
    assert forall|i: int|
        0 <= i < upper.len() && is_label_char(upper[i]) && (#[trigger] label_chars(upper.take(i))).len() < 32
        implies sanitized_label(upper)[label_chars(upper.take(i)).len() as int] == upper[i] by {
        let b = upper.take(i).filter(p);
        let rest = upper.skip(i);
        assert(upper.take(i) + rest =~= upper);
        Seq::filter_distributes_over_add(upper.take(i), rest, p);
        assert(rest =~= seq![upper[i]] + upper.skip(i + 1));
        Seq::filter_distributes_over_add(seq![upper[i]], upper.skip(i + 1), p);
        reveal_with_fuel(Seq::filter, 2);
        assert(seq![upper[i]].drop_last() =~= Seq::<char>::empty());
        assert(seq![upper[i]].filter(p) =~= seq![upper[i]]);
        assert(f == b + (seq![upper[i]] + upper.skip(i + 1).filter(p)));
        assert(f[b.len() as int] == upper[i]);
        assert(f.len() > b.len());
        assert(at_most_label_max(f)[b.len() as int] == f[b.len() as int]);
    }
}

/// A label that is already clean (1 to 32 label characters) is kept as it
/// is.
pub proof fn law_label_keeps_clean(upper: Seq<char>)
    requires
        1 <= upper.len() <= 32,
        forall|i: int| 0 <= i < upper.len() ==> is_label_char(#[trigger] upper[i]),
    ensures
        sanitized_label(upper) == upper,
{
    let p = |c: char| is_label_char(c);
    lemma_filter_all(upper, p);
}

/// The label made from a string without ASCII lowercase letters is a
/// finished volume label.
proof fn lemma_label_of_uppercase(upper: Seq<char>)
    requires
        forall|i: int| 0 <= i < upper.len() ==> !is_ascii_lowercase(#[trigger] upper[i]),
    ensures
        is_volume_label(sanitized_label(upper)),
{
    let p = |c: char| is_label_char(c);
    let kept = upper.filter(p);
    law_label_shape(upper);
    lemma_filter_keeps(upper, p, |c: char| !is_ascii_lowercase(c));
    let r = sanitized_label(upper);
    if at_most_label_max(kept).len() > 0 {
        assert forall|i: int| 0 <= i < r.len() implies is_volume_label_char(#[trigger] r[i]) by {
            assert(r[i] == kept[i]);
            assert(is_label_char(r[i]));
        }
    } else {
        assert forall|i: int| 0 <= i < r.len() implies is_volume_label_char(#[trigger] r[i]) by {}
    }
}

/// What holds of every element of `s` holds of every element it keeps.
proof fn lemma_filter_keeps(s: Seq<char>, p: spec_fn(char) -> bool, q: spec_fn(char) -> bool)
    requires
        forall|i: int| 0 <= i < s.len() ==> q(#[trigger] s[i]),
    ensures
        forall|i: int| 0 <= i < s.filter(p).len() ==> q(#[trigger] s.filter(p)[i]),
    decreases s.len(),
{
    reveal_with_fuel(Seq::filter, 1);
    if s.len() > 0 {
        lemma_filter_keeps(s.drop_last(), p, q);
        assert(q(s[s.len() - 1]));
        let prev = s.drop_last().filter(p);
        assert forall|i: int| 0 <= i < s.filter(p).len() implies q(#[trigger] s.filter(p)[i]) by {
            if i < prev.len() {
                assert(s.filter(p)[i] == prev[i]);
            }
        }
    }
}

proof fn lemma_filter_all(s: Seq<char>, p: spec_fn(char) -> bool)
    requires
        forall|i: int| 0 <= i < s.len() ==> p(#[trigger] s[i]),
    ensures
        s.filter(p) == s,
    decreases s.len(),
{
    reveal_with_fuel(Seq::filter, 1);
    if s.len() > 0 {
        lemma_filter_all(s.drop_last(), p);
        assert(p(s[s.len() - 1]));
        assert(s.drop_last().push(s.last()) =~= s);
    } else {
        assert(s.filter(p) =~= s);
    }
}

/// A cut image is whole sectors, holds every non-zero byte of the written
/// image, and what is cut off is all zero.
pub proof fn law_trim(image: Seq<u8>)
    ensures
        trimmed_len(image) % 2048 == 0,
        data_len(image) <= trimmed_len(image) < data_len(image) + 2048,
        forall|i: int| trimmed_len(image) <= i < image.len() ==> #[trigger] image[i] == 0,
        forall|i: int| 0 <= i < image.len() && image[i] != 0 ==> i < trimmed_len(image),
{
    lemma_data_len(image);
    lemma_sector_aligned(data_len(image));
}

/// The features the image is written with: level 2 names in the primary
/// tree (lowercase kept, Rock Ridge entries), long level 3 names in a second
/// tree, a Joliet tree at level 3, and Rock Ridge with every option on; no
/// boot record and no partition table.
pub open spec fn image_features() -> CreationFeatures {
    creation_features_of(
        level2_filenames_of(true, true),
        true,
        Some(joliet_level_of(3)),
        Some(rrip_options_of(true, true, true, true, true, true, true)),
        None,
        None,
    )
}

/// The options the image is written with: the volume label, no other
/// identifier, 2048-byte sectors, the features of [`image_features`],
/// forward slashes between path components, and identifiers stored as they
/// are.
pub open spec fn iso_options(label: Seq<char>) -> FormatOptions {
    format_options_of(label, None, None, None, None, None, 2048, image_features(), path_separator_of(true), false)
}

/// Builds the options of [`iso_options`] for the label.
pub fn image_options(label: String) -> (r: FormatOptions)
    ensures
        r == iso_options(label@),
{
    let filenames = level2_filenames(true, true);
    let rock_ridge = rrip_options(true, true, true, true, true, true, true);
    let joliet = joliet_level(3);
    let features = creation_features(filenames, true, Some(joliet), Some(rock_ridge), None::<BootOptions>, None::<HybridBootOptions>);
    format_options(label, None, None, None, None, None, 2048, features, path_separator(true), false)
}

/// The message of a build refused because the tree has more directories or
/// nodes than the writer can number.
pub open spec fn oversized_tree_message() -> Seq<char> {
    "ISO 构建失败: 目录过多"@
}

/// Whether the tree has more directories (65535 or more) or more nodes
/// (4294967295 or more) than the writer can number.
pub open spec fn tree_too_large(tree: Seq<TreeNode>) -> bool {
    directory_count(tree) >= 65535 || node_count(tree) >= 4294967295
}

/// The zeroed buffer of the estimated size that the image is written into.
pub open spec fn image_buffer(files: Seq<FileEntry>) -> Seq<u8> {
    Seq::new((estimated_size(files) as usize) as nat, |i: int| 0u8)
}

/// Whether `raw` is what the writer may hand back for the files: the
/// directory tree of their image paths, `contents[i]` being the data of
/// `files[i]`, written into [`image_buffer`] with forward slashes and the
/// options of [`iso_options`] for the sanitised label.
pub open spec fn written_image(raw: Seq<u8>, label: Seq<char>, files: Seq<FileEntry>, contents: Seq<Seq<u8>>) -> bool {
    written_by_writer(
        raw,
        image_buffer(files),
        iso_files_of(tree_of(entries_view(files)), contents),
        path_separator_of(true),
        iso_options(sanitized_label(uppercase_of(label))),
    )
}

/// Whether the writer may refuse the arguments that [`written_image`]
/// describes.
pub open spec fn refused_image(label: Seq<char>, files: Seq<FileEntry>, contents: Seq<Seq<u8>>) -> bool {
    refused_by_writer(
        image_buffer(files),
        iso_files_of(tree_of(entries_view(files)), contents),
        path_separator_of(true),
        iso_options(sanitized_label(uppercase_of(label))),
    )
}

/// A tree is refused exactly when the writer could not number it: 65535
/// directories or more, or 4294967295 nodes or more. Any tree within those
/// limits goes to the writer.
pub proof fn law_tree_limits(tree: Seq<TreeNode>)
    ensures
        directory_count(tree) < 65535 && node_count(tree) < 4294967295 ==> !tree_too_large(tree),
        directory_count(tree) >= 65535 ==> tree_too_large(tree),
        node_count(tree) >= 4294967295 ==> tree_too_large(tree),
{
}

/// Lays out the image of the files, `contents[i]` being the data of
/// `files[i]`: the files are arranged in the directory tree of their image
/// paths; a tree with more directories or nodes than the writer can number is
/// refused; otherwise `hadris_iso` writes it, with the sanitised label and the
/// options of [`iso_options`], into a zeroed buffer of the estimated size,
/// and the written image is cut after its data, rounded up to whole sectors
/// (see [`finish_image`]). The writer stamps the time into the image, so the
/// bytes are tied to the arguments by [`written_image`], not named.
pub fn build_iso_image(volume_label: &str, files: &[FileEntry], contents: Vec<Vec<u8>>) -> (r: Result<Vec<u8>, String>)
    requires
        contents@.len() == files@.len(),
        estimated_size(files@) <= u64::MAX,
    ensures
        tree_too_large(tree_of(entries_view(files@))) ==> (r matches Err(msg) && msg@ == oversized_tree_message()),
        !tree_too_large(tree_of(entries_view(files@))) ==> match r {
            Ok(image) => exists|raw: Seq<u8>|
                #[trigger] written_image(raw, volume_label@, files@, contents_view(contents@))
                    && raw.len() >= image_buffer(files@).len() && trimmed_len(raw) <= raw.len()
                    && image@ == raw.take(trimmed_len(raw) as int),
            Err(msg) => (exists|raw: Seq<u8>|
                #[trigger] written_image(raw, volume_label@, files@, contents_view(contents@))
                    && trimmed_len(raw) > raw.len() && msg@ == unaligned_image_message())
                || (refused_image(volume_label@, files@, contents_view(contents@))
                    && msg@.len() >= build_failure_prefix().len()
                    && msg@.take(build_failure_prefix().len() as int) == build_failure_prefix()),
        },
{
    let tree = build_tree(files);
    let (dirs, count) = count_tree(&tree);
    if dirs >= 65535 || count >= 4294967295 {
        return Err(String::from_str("ISO 构建失败: 目录过多"));
    }
    let ghost es = entries_view(files@);
    let ghost cv = contents_view(contents@);
    proof { lemma_tree_sources(es); }
    let iso_files = to_iso_files(&tree, &contents);
    let label = sanitize_volume_label(volume_label);
    let estimated = estimate_size(files) as usize;
    let buffer: Vec<u8> = vec![0u8; estimated];
    proof {
        assert(buffer@ =~= image_buffer(files@));
        assert(iso_files@ == iso_files_of(tree_of(es), cv));
    }
    let options = image_options(label);
    let written = write_image(buffer, iso_files, path_separator(true), options);
    let ghost raw_result = written;
    let r = finish_image(written);
    proof {
        match raw_result {
            Ok(raw) => {
                assert(written_image(raw@, volume_label@, files@, cv));
            },
            Err(_) => {},
        }
    }
    r
}

} // verus!
