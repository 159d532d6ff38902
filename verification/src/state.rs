use vstd::prelude::*;
use vstd::string::StringExecFns;
use crate::text::{concat, decimal, decimal_string, forward_slashes, replace_backslashes, to_uppercase, uppercase_of};

verus! {

/// One file chosen by the user: its display name, its path on the local
/// disk, the path it will have inside the image, and its size in bytes.
#[derive(Debug)]
pub struct FileEntry {
    pub name: String,
    pub path: String,
    pub iso_path: String,
    pub size: u64,
}

/// The mathematical value of a [`FileEntry`].
pub struct FileEntryView {
    pub name: Seq<char>,
    pub path: Seq<char>,
    pub iso_path: Seq<char>,
    pub size: u64,
}

impl View for FileEntry {
    type V = FileEntryView;

    open spec fn view(&self) -> FileEntryView {
        FileEntryView { name: self.name@, path: self.path@, iso_path: self.iso_path@, size: self.size }
    }
}

impl Clone for FileEntry {
    fn clone(&self) -> (r: Self)
        ensures
            r@ == self@,
    {
        FileEntry {
            name: self.name.clone(),
            path: self.path.clone(),
            iso_path: self.iso_path.clone(),
            size: self.size,
        }
    }
}

/// The values of a sequence of entries.
pub open spec fn entries_view(s: Seq<FileEntry>) -> Seq<FileEntryView> {
    s.map_values(|e: FileEntry| e@)
}

/// Copies a list of entries.
pub fn clone_entries(v: &Vec<FileEntry>) -> (r: Vec<FileEntry>)
    ensures
        entries_view(r@) == entries_view(v@),
{
    let mut r: Vec<FileEntry> = Vec::new();
    let mut i: usize = 0;
    while i < v.len()
        invariant
            i <= v@.len(),
            r@.len() == i,
            forall|j: int| 0 <= j < i ==> (#[trigger] r@[j])@ == v@[j]@,
        decreases v@.len() - i,
    {
        r.push(v[i].clone());
        i = i + 1;
    }
    proof { assert(entries_view(r@) =~= entries_view(v@)); }
    r
}

/// A request to build an image: its volume label, its files and where to
/// write it.
#[derive(Debug)]
pub struct BuildRequest {
    pub volume_label: String,
    pub files: Vec<FileEntry>,
    pub output_path: String,
}

/// A report on the progress of a build.
#[derive(Debug)]
pub struct ProgressEvent {
    pub status: String,
    pub current: usize,
    pub total: usize,
    pub filename: String,
    pub message: String,
    pub output_path: Option<String>,
    pub size: Option<u64>,
}

/// Whether `e` reports that file number `current` of `total`, named
/// `filename`, is being added.
pub open spec fn adding_report(e: ProgressEvent, current: nat, total: nat, filename: Seq<char>) -> bool {
    &&& e.status@ == "working"@
    &&& e.current == current
    &&& e.total == total
    &&& e.filename@ == filename
    &&& e.message@ == "正在添加 "@ + filename + " ("@ + decimal(current) + "/"@ + decimal(total) + ")"@
    &&& e.output_path is None
    &&& e.size is None
}

impl ProgressEvent {
    /// The report sent before a build of `total` files starts.
    pub fn preparing(total: usize) -> (e: ProgressEvent)
        ensures
            e.status@ == "working"@,
            e.current == 0,
            e.total == total,
            e.filename@.len() == 0,
            e.message@ == "正在准备构建..."@,
            e.output_path is None,
            e.size is None,
    {
        ProgressEvent {
            status: String::from_str("working"),
            current: 0,
            total,
            filename: String::new(),
            message: String::from_str("正在准备构建..."),
            output_path: None,
            size: None,
        }
    }

    /// The report that file number `current` of `total`, named `filename`,
    /// is being added.
    pub fn adding(current: usize, total: usize, filename: &str) -> (e: ProgressEvent)
        ensures
            adding_report(e, current as nat, total as nat, filename@),
    {
        let mut message = concat("正在添加 ", filename);
        message.append(" (");
        let c = decimal_string(current);
        message.append(c.as_str());
        message.append("/");
        let t = decimal_string(total);
        message.append(t.as_str());
        message.append(")");
        ProgressEvent {
            status: String::from_str("working"),
            current,
            total,
            filename: String::from_str(filename),
            message,
            output_path: None,
            size: None,
        }
    }

    /// The report that the image of `total` files was written to
    /// `output_path` and has `size` bytes.
    pub fn finished(total: usize, output_path: String, size: u64) -> (e: ProgressEvent)
        ensures
            e.status@ == "done"@,
            e.current == total,
            e.total == total,
            e.filename@.len() == 0,
            e.message@ == "ISO 创建完成: "@ + output_path@,
            e.output_path matches Some(p) && p@ == output_path@,
            e.size == Some(size),
    {
        let message = concat("ISO 创建完成: ", output_path.as_str());
        ProgressEvent {
            status: String::from_str("done"),
            current: total,
            total,
            filename: String::new(),
            message,
            output_path: Some(output_path),
            size: Some(size),
        }
    }

    /// The report that a build of `total` files failed with `message`.
    pub fn failed(total: usize, message: String) -> (e: ProgressEvent)
        ensures
            e.status@ == "error"@,
            e.current == 0,
            e.total == total,
            e.filename@.len() == 0,
            e.message@ == message@,
            e.output_path is None,
            e.size is None,
    {
        ProgressEvent {
            status: String::from_str("error"),
            current: 0,
            total,
            filename: String::new(),
            message,
            output_path: None,
            size: None,
        }
    }

    /// The report that ends a build: done, with the size of the written
    /// image, when it succeeded; an error with its message otherwise.
    pub fn after_build(total: usize, output_path: String, outcome: Result<u64, String>) -> (e: ProgressEvent)
        ensures
            match outcome {
                Ok(size) => e.status@ == "done"@ && e.current == total && e.total == total
                    && e.filename@.len() == 0 && e.message@ == "ISO 创建完成: "@ + output_path@
                    && (e.output_path matches Some(p) && p@ == output_path@) && e.size == Some(size),
                Err(msg) => e.status@ == "error"@ && e.current == 0 && e.total == total
                    && e.filename@.len() == 0 && e.message@ == msg@ && e.output_path is None && e.size is None,
            },
    {
        match outcome {
            Ok(size) => ProgressEvent::finished(total, output_path, size),
            Err(msg) => ProgressEvent::failed(total, msg),
        }
    }
}

/// A file met while walking a chosen directory: its name, its full path,
/// its path relative to the chosen directory, and its size when it could be
/// read.
#[derive(Debug)]
pub struct WalkedFile {
    pub name: String,
    pub full_path: String,
    pub relative_path: String,
    pub size: Option<u64>,
}

/// What was found at a path the user chose.
#[derive(Debug)]
pub enum PathProbe {
    /// Nothing exists at the path.
    Missing,
    /// A file: the path as given, its file name when it has one in UTF-8,
    /// and its size when it could be read.
    File { raw: String, name: Option<String>, size: Option<u64> },
    /// A directory, with the files found below it that are kept.
    Directory { files: Vec<WalkedFile> },
    /// Something that is neither a file nor a directory.
    Unsupported,
}

/// The name given to a chosen file whose name cannot be read.
pub open spec fn unknown_name() -> Seq<char> {
    "unknown"@
}

/// The size recorded for a file: the size read, or 0.
pub open spec fn size_or_zero(size: Option<u64>) -> u64 {
    match size {
        Some(s) => s,
        None => 0,
    }
}

/// The entry of a chosen file: named by its file name (or `unknown`), kept
/// at the top of the image under its uppercased name.
pub open spec fn chosen_file_entry(raw: Seq<char>, name: Option<String>, size: Option<u64>) -> FileEntryView {
    let n = match name {
        Some(n) => n@,
        None => unknown_name(),
    };
    FileEntryView { name: n, path: raw, iso_path: "/"@ + uppercase_of(n), size: size_or_zero(size) }
}

/// The entry of a file found in a chosen directory: kept in the image at
/// its path relative to that directory, with forward slashes.
pub open spec fn walked_entry(w: WalkedFile) -> FileEntryView {
    FileEntryView {
        name: w.name@,
        path: w.full_path@,
        iso_path: "/"@ + forward_slashes(w.relative_path@),
        size: size_or_zero(w.size),
    }
}

/// The entries for what was found at one path.
pub open spec fn probe_entries(p: PathProbe) -> Seq<FileEntryView> {
    match p {
        PathProbe::File { raw, name, size } => seq![chosen_file_entry(raw@, name, size)],
        PathProbe::Directory { files } => files@.map_values(|w: WalkedFile| walked_entry(w)),
        _ => seq![],
    }
}

/// The entries for what was found at each path, in order.
pub open spec fn probes_entries(ps: Seq<PathProbe>) -> Seq<FileEntryView>
    decreases ps.len(),
{
    if ps.len() == 0 {
        seq![]
    } else {
        probes_entries(ps.drop_last()) + probe_entries(ps.last())
    }
}

/// How many files were found at a path: one for a file, whatever its size;
/// each file found below a directory; none otherwise.
pub open spec fn files_found(p: PathProbe) -> nat {
    match p {
        PathProbe::File { .. } => 1,
        PathProbe::Directory { files } => files@.len(),
        _ => 0,
    }
}

/// How many files were found at all the paths.
pub open spec fn total_files_found(ps: Seq<PathProbe>) -> nat
    decreases ps.len(),
{
    if ps.len() == 0 {
        0
    } else {
        total_files_found(ps.drop_last()) + files_found(ps.last())
    }
}

/// Every file found gives exactly one entry: adding the probes adds as many
/// entries as files were found, empty files included.
pub proof fn law_one_entry_per_file_found(ps: Seq<PathProbe>)
    ensures
        probes_entries(ps).len() == total_files_found(ps),
    decreases ps.len(),
{
    if ps.len() > 0 {
        law_one_entry_per_file_found(ps.drop_last());
    }
}

/// A chosen file gives exactly one entry, whatever its size (0 included):
/// its path is the path chosen, its size the size read (0 when none could
/// be read), its name the file name (or `unknown`), and it lies at the top of
/// the image.
pub proof fn law_chosen_file_entry(raw: String, name: Option<String>, size: Option<u64>)
    ensures
        probe_entries(PathProbe::File { raw, name, size }).len() == 1,
        probe_entries(PathProbe::File { raw, name, size })[0].path == raw@,
        probe_entries(PathProbe::File { raw, name, size })[0].size == (match size {
            Some(s) => s,
            None => 0u64,
        }),
        probe_entries(PathProbe::File { raw, name, size })[0].name == (match name {
            Some(n) => n@,
            None => "unknown"@,
        }),
        probe_entries(PathProbe::File { raw, name, size })[0].iso_path.len() >= 1,
        probe_entries(PathProbe::File { raw, name, size })[0].iso_path[0] == '/',
{
    reveal_strlit("/");
    let e = probe_entries(PathProbe::File { raw, name, size })[0];
    assert(e.iso_path[0] == ("/"@ + uppercase_of(e.name))[0]);
}

/// A chosen directory gives one entry per file found below it, in the
/// order found, whatever the sizes (0 included): entry `i` has the path,
/// name and size of file `i`, and its image path is `/` and the file's path
/// relative to the directory.
pub proof fn law_walked_file_entries(files: Vec<WalkedFile>)
    ensures
        probe_entries(PathProbe::Directory { files }).len() == files@.len(),
        forall|i: int| 0 <= i < files@.len() ==> {
            let e = #[trigger] probe_entries(PathProbe::Directory { files })[i];
            &&& e.path == files@[i].full_path@
            &&& e.name == files@[i].name@
            &&& e.size == (match files@[i].size {
                Some(s) => s,
                None => 0u64,
            })
            &&& e.iso_path == "/"@ + forward_slashes(files@[i].relative_path@)
        },
{
}

/// The entry of a chosen file.
pub fn chosen_file(raw: &String, name: &Option<String>, size: Option<u64>) -> (e: FileEntry)
    ensures
        e@ == chosen_file_entry(raw@, *name, size),
{
    let n = match name {
        Some(n) => n.clone(),
        None => String::from_str("unknown"),
    };
    let upper = to_uppercase(n.as_str());
    let iso_path = concat("/", upper.as_str());
    let size = match size {
        Some(s) => s,
        None => 0,
    };
    FileEntry { name: n, path: raw.clone(), iso_path, size }
}

/// The entry of a file found in a chosen directory.
pub fn walked_file(w: &WalkedFile) -> (e: FileEntry)
    ensures
        e@ == walked_entry(*w),
{
    let rel = replace_backslashes(w.relative_path.as_str());
    let iso_path = concat("/", rel.as_str());
    let size = match w.size {
        Some(s) => s,
        None => 0,
    };
    FileEntry { name: w.name.clone(), path: w.full_path.clone(), iso_path, size }
}

/// Whether a walk into a chosen directory keeps an entry with this name:
/// everything but names that start with a dot (and what lies below them).
pub fn keeps_walk_entry(name: Option<&str>) -> (r: bool)
    ensures
        r == !(name matches Some(n) && n@.len() > 0 && n@[0] == '.'),
{
    match name {
        Some(n) => {
            let chars = crate::text::chars_of(n);
            !(chars.len() > 0 && chars[0] == '.')
        },
        None => true,
    }
}

/// The directory offered for output: the current directory, or `.` when it
/// cannot be read.
pub fn default_output(current_dir: Option<String>) -> (r: String)
    ensures
        r@ == match current_dir {
            Some(d) => d@,
            None => "."@,
        },
{
    match current_dir {
        Some(d) => d,
        None => String::from_str("."),
    }
}

/// The state of the application: the files chosen so far.
#[derive(Debug)]
pub struct AppState {
    pub files: Vec<FileEntry>,
}

impl Default for AppState {
    fn default() -> (r: Self)
        ensures
            r.files@.len() == 0,
    {
        AppState { files: Vec::new() }
    }
}

impl AppState {
    /// Records the files found at the chosen paths: a chosen file gives one
    /// entry, a chosen directory one entry per file found below it, and a
    /// missing path or anything else none. Returns the entries added.
    pub fn add_files(&mut self, probes: Vec<PathProbe>) -> (added: Vec<FileEntry>)
        ensures
            entries_view(added@) == probes_entries(probes@),
            added@.len() == total_files_found(probes@),
            entries_view(final(self).files@) == entries_view(old(self).files@) + entries_view(added@),
    {
        let mut added: Vec<FileEntry> = Vec::new();
        let mut i: usize = 0;
        proof { assert(probes@.take(0) =~= Seq::<PathProbe>::empty()); }
        while i < probes.len()
            invariant
                i <= probes@.len(),
                entries_view(added@) == probes_entries(probes@.take(i as int)),
                entries_view(self.files@) == entries_view(old(self).files@) + entries_view(added@),
            decreases probes@.len() - i,
        {
            let ghost added_before = entries_view(added@);
            let ghost files_before = entries_view(self.files@);
            proof {
                assert(probes@.take(i + 1).drop_last() =~= probes@.take(i as int));
                assert(probes@.take(i + 1).last() == probes@[i as int]);
            }
            let probe = &probes[i];
            assert(*probe == probes@[i as int]);
            match probe {
                PathProbe::File { raw, name, size } => {
                    let entry = chosen_file(raw, name, *size);
                    self.files.push(entry.clone());
                    added.push(entry);
                    proof {
                        assert(entries_view(added@) =~= added_before + probe_entries(*probe));
                        assert(entries_view(self.files@) =~= files_before.push(entry@));
                    }
                },
                PathProbe::Directory { files } => {
                    let mut j: usize = 0;
                    let ghost ws = files@.map_values(|w: WalkedFile| walked_entry(w));
                    proof { assert(ws.take(0) =~= Seq::<FileEntryView>::empty()); }
                    while j < files.len()
                        invariant
                            j <= files@.len(),
                            ws == files@.map_values(|w: WalkedFile| walked_entry(w)),
                            entries_view(added@) == added_before + ws.take(j as int),
                            entries_view(self.files@) == entries_view(old(self).files@) + entries_view(added@),
                            files_before == entries_view(old(self).files@) + added_before,
                        decreases files@.len() - j,
                    {
                        let entry = walked_file(&files[j]);
                        let ghost a = entries_view(added@);
                        let ghost f = entries_view(self.files@);
                        self.files.push(entry.clone());
                        added.push(entry);
                        proof {
                            assert(ws.take(j + 1) =~= ws.take(j as int).push(ws[j as int]));
                            assert(entries_view(added@) =~= a.push(entry@));
                            assert(entries_view(self.files@) =~= f.push(entry@));
                        }
                        j = j + 1;
                    }
                    proof { assert(ws.take(j as int) =~= ws); }
                },
                _ => {
                    proof {
                        assert(probe_entries(*probe) =~= Seq::<FileEntryView>::empty());
                        assert(added_before + probe_entries(*probe) =~= added_before);
                    }
                },
            }
            i = i + 1;
        }
        proof {
            assert(probes@.take(i as int) =~= probes@);
            law_one_entry_per_file_found(probes@);
            assert(entries_view(added@).len() == added@.len());
        }
        added
    }

    /// A copy of the files chosen so far.
    pub fn get_files(&self) -> (r: Vec<FileEntry>)
        ensures
            entries_view(r@) == entries_view(self.files@),
    {
        clone_entries(&self.files)
    }

    /// Removes the file at `index`, or fails with `索引越界` when there is
    /// none.
    pub fn remove_file(&mut self, index: usize) -> (r: Result<(), String>)
        ensures
            index < old(self).files@.len() ==> r is Ok && final(self).files@ == old(self).files@.remove(index as int),
            index >= old(self).files@.len() ==> (r matches Err(msg) && msg@ == "索引越界"@)
                && final(self).files@ == old(self).files@,
    {
        if index < self.files.len() {
            self.files.remove(index);
            Ok(())
        } else {
            Err(String::from_str("索引越界"))
        }
    }

    /// Forgets all chosen files.
    pub fn clear_files(&mut self)
        ensures
            final(self).files@.len() == 0,
    {
        self.files.clear();
    }
}

/// The reports of a build of the files, one per file in order: report `i`
/// says that file `i + 1` of all of them, named as entry `i`, is being added.
pub fn file_progress(files: &[FileEntry]) -> (r: Vec<ProgressEvent>)
    ensures
        r@.len() == files@.len(),
        forall|i: int| 0 <= i < files@.len() ==> adding_report(#[trigger] r@[i], (i + 1) as nat, files@.len(), files@[i].name@),
{
    let mut r: Vec<ProgressEvent> = Vec::new();
    let total = files.len();
    let mut i: usize = 0;
    while i < total
        invariant
            i <= total == files@.len(),
            r@.len() == i,
            forall|j: int| 0 <= j < i ==> adding_report(#[trigger] r@[j], (j + 1) as nat, total as nat, files@[j].name@),
        decreases total - i,
    {
        let e = ProgressEvent::adding(i + 1, total, files[i].name.as_str());
        r.push(e);
        i = i + 1;
    }
    r
}

} // verus!
