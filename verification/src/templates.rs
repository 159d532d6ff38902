use vstd::prelude::*;
use vstd::string::StringExecFns;
use crate::state::{clone_entries, entries_view, FileEntry, FileEntryView};

verus! {

/// A saved set of build settings: a name, a volume label, an output path
/// and the files.
#[derive(Debug)]
pub struct Template {
    pub name: String,
    pub volume_label: String,
    pub output_path: String,
    pub files: Vec<FileEntry>,
}

/// The mathematical value of a [`Template`].
pub struct TemplateView {
    pub name: Seq<char>,
    pub volume_label: Seq<char>,
    pub output_path: Seq<char>,
    pub files: Seq<FileEntryView>,
}

impl View for Template {
    type V = TemplateView;

    open spec fn view(&self) -> TemplateView {
        TemplateView {
            name: self.name@,
            volume_label: self.volume_label@,
            output_path: self.output_path@,
            files: entries_view(self.files@),
        }
    }
}

impl Clone for Template {
    fn clone(&self) -> (r: Self)
        ensures
            r@ == self@,
    {
        Template {
            name: self.name.clone(),
            volume_label: self.volume_label.clone(),
            output_path: self.output_path.clone(),
            files: clone_entries(&self.files),
        }
    }
}

/// The values of a sequence of templates.
pub open spec fn templates_view(s: Seq<Template>) -> Seq<TemplateView> {
    s.map_values(|t: Template| t@)
}

/// The index of the first template named `name`, or -1 when there is none.
pub open spec fn first_named(ts: Seq<TemplateView>, name: Seq<char>) -> int
    decreases ts.len(),
{
    if ts.len() == 0 {
        -1
    } else {
        let k = first_named(ts.drop_last(), name);
        if k >= 0 {
            k
        } else if ts.last().name == name {
            ts.len() - 1
        } else {
            -1
        }
    }
}

/// The templates after saving `t`: it replaces the first template of the
/// same name, or is appended when there is none.
pub open spec fn upserted(ts: Seq<TemplateView>, t: TemplateView) -> Seq<TemplateView> {
    let k = first_named(ts, t.name);
    if k >= 0 {
        ts.update(k, t)
    } else {
        ts.push(t)
    }
}

/// The templates without those named `name`, in their order.
pub open spec fn without_name(ts: Seq<TemplateView>, name: Seq<char>) -> Seq<TemplateView> {
    ts.filter(|t: TemplateView| t.name != name)
}

/// Whether some template is named `name`.
pub open spec fn has_name(ts: Seq<TemplateView>, name: Seq<char>) -> bool {
    exists|i: int| 0 <= i < ts.len() && (#[trigger] ts[i]).name == name
}

pub proof fn lemma_first_named(ts: Seq<TemplateView>, name: Seq<char>)
    ensures
        -1 <= first_named(ts, name) < ts.len(),
        first_named(ts, name) >= 0 ==> ts[first_named(ts, name)].name == name,
        forall|j: int|
            0 <= j < ts.len() && (first_named(ts, name) == -1 || j < first_named(ts, name))
                ==> (#[trigger] ts[j]).name != name,
        (first_named(ts, name) >= 0) == has_name(ts, name),
    decreases ts.len(),
{
    if ts.len() > 0 {
        lemma_first_named(ts.drop_last(), name);
        assert forall|j: int| 0 <= j < ts.len() - 1 implies ts.drop_last()[j] == ts[j] by {}
        if has_name(ts.drop_last(), name) {
            let i = choose|i: int| 0 <= i < ts.drop_last().len() && (#[trigger] ts.drop_last()[i]).name == name;
            assert(ts[i].name == name);
        }
        if first_named(ts, name) >= 0 {
            assert(ts[first_named(ts, name)].name == name);
        }
    }
}

/// Saves `template` into the list: it replaces the first template of the
/// same name, or is appended when there is none.
pub fn upsert_template(templates: &mut Vec<Template>, template: &Template)
    ensures
        templates_view(final(templates)@) == upserted(templates_view(old(templates)@), template@),
{
    let ghost old_view = templates_view(templates@);
    proof { lemma_first_named(old_view, template.name@); }
    let mut i: usize = 0;
    while i < templates.len()
        invariant
            i <= templates@.len(),
            templates@ == old(templates)@,
            old_view == templates_view(templates@),
            forall|j: int| 0 <= j < i ==> (#[trigger] old_view[j]).name != template.name@,
        decreases templates@.len() - i,
    {
        if templates[i].name == template.name {
            proof {
                assert(old_view[i as int].name == template.name@);
                lemma_first_named(old_view, template.name@);
                assert(first_named(old_view, template.name@) == i);
            }
            templates.set(i, template.clone());
            proof {
                assert(templates_view(templates@) =~= old_view.update(i as int, template@));
            }
            return;
        }
        i = i + 1;
    }
    proof {
        lemma_first_named(old_view, template.name@);
        assert(first_named(old_view, template.name@) == -1);
    }
    templates.push(template.clone());
    proof { assert(templates_view(templates@) =~= old_view.push(template@)); }
}

/// Removes every template named `name`, keeping the order of the others,
/// and tells whether there was one.
pub fn remove_templates_named(templates: &mut Vec<Template>, name: &str) -> (removed: bool)
    ensures
        templates_view(final(templates)@) == without_name(templates_view(old(templates)@), name@),
        removed == has_name(templates_view(old(templates)@), name@),
{
    let ghost old_view = templates_view(templates@);
    let ghost p = |t: TemplateView| t.name != name@;
    let target = String::from_str(name);
    let mut kept: Vec<Template> = Vec::new();
    let mut removed = false;
    let mut i: usize = 0;
    proof { assert(old_view.take(0) =~= Seq::<TemplateView>::empty()); }
    while i < templates.len()
        invariant
            i <= templates@.len(),
            templates@ == old(templates)@,
            templates_view(templates@) == old_view,
            target@ == name@,
            p == (|t: TemplateView| t.name != name@),
            templates_view(kept@) == old_view.take(i as int).filter(p),
            removed == has_name(old_view.take(i as int), name@),
        decreases templates@.len() - i,
    {
        proof {
            reveal_with_fuel(Seq::filter, 1);
            assert(old_view.take(i + 1).drop_last() =~= old_view.take(i as int));
            assert(old_view.take(i + 1).last() == old_view[i as int]);
        }
        let ghost kept_before = templates_view(kept@);
        if templates[i].name == target {
            removed = true;
            proof { assert(old_view.take(i + 1)[i as int].name == name@); }
        } else {
            kept.push(templates[i].clone());
            proof {
                assert(templates_view(kept@) =~= kept_before.push(old_view[i as int]));
                if has_name(old_view.take(i + 1), name@) {
                    let k = choose|k: int| 0 <= k < i + 1 && (#[trigger] old_view.take(i + 1)[k]).name == name@;
                    assert(old_view.take(i as int)[k] == old_view.take(i + 1)[k]);
                }
            }
        }
        proof {
            if has_name(old_view.take(i as int), name@) {
                let k = choose|k: int| 0 <= k < i && (#[trigger] old_view.take(i as int)[k]).name == name@;
                assert(old_view.take(i + 1)[k] == old_view.take(i as int)[k]);
            }
        }
        i = i + 1;
    }
    proof { assert(old_view.take(i as int) =~= old_view); }
    *templates = kept;
    removed
}

/// Saving a template makes it the template found under its name.
pub proof fn law_saved_template_found(ts: Seq<TemplateView>, t: TemplateView)
    ensures
        first_named(upserted(ts, t), t.name) >= 0,
        upserted(ts, t)[first_named(upserted(ts, t), t.name)] == t,
{
    lemma_first_named(ts, t.name);
    let u = upserted(ts, t);
    lemma_first_named(u, t.name);
    let k = first_named(ts, t.name);
    let m = first_named(u, t.name);
    if k >= 0 {
        assert(u[k].name == t.name);
        if m < k {
            assert(u[m] == ts[m]);
        }
    } else {
        assert(u[ts.len() as int] == t);
        if m < ts.len() {
            assert(u[m] == ts[m]);
        }
    }
}

/// Saving a template leaves the templates of every other name as they
/// were, in their order.
pub proof fn law_save_keeps_others(ts: Seq<TemplateView>, t: TemplateView)
    ensures
        without_name(upserted(ts, t), t.name) == without_name(ts, t.name),
{
    let p = |x: TemplateView| x.name != t.name;
    lemma_first_named(ts, t.name);
    let k = first_named(ts, t.name);
    if k >= 0 {
        lemma_filter_update(ts, k, t, p);
    } else {
        reveal_with_fuel(Seq::filter, 1);
        assert(ts.push(t).drop_last() =~= ts);
    }
}

proof fn lemma_filter_update(s: Seq<TemplateView>, k: int, t: TemplateView, p: spec_fn(TemplateView) -> bool)
    requires
        0 <= k < s.len(),
        !p(s[k]),
        !p(t),
    ensures
        s.update(k, t).filter(p) == s.filter(p),
    decreases s.len(),
{
    reveal_with_fuel(Seq::filter, 1);
    if k < s.len() - 1 {
        lemma_filter_update(s.drop_last(), k, t, p);
        assert(s.update(k, t).drop_last() =~= s.drop_last().update(k, t));
    } else {
        assert(s.update(k, t).drop_last() =~= s.drop_last());
    }
}

/// Saving the same template twice is saving it once.
pub proof fn law_save_idempotent(ts: Seq<TemplateView>, t: TemplateView)
    ensures
        upserted(upserted(ts, t), t) == upserted(ts, t),
{
    law_saved_template_found(ts, t);
    let u = upserted(ts, t);
    let m = first_named(u, t.name);
    lemma_first_named(u, t.name);
    assert(u.update(m, t) =~= u);
}

/// After deleting a name, no template of that name is left.
pub proof fn law_delete_clears(ts: Seq<TemplateView>, name: Seq<char>)
    ensures
        !has_name(without_name(ts, name), name),
        without_name(without_name(ts, name), name) == without_name(ts, name),
{
    let p = |x: TemplateView| x.name != name;
    let f = ts.filter(p);
    assert forall|i: int| 0 <= i < f.len() implies (#[trigger] f[i]).name != name by {
        ts.lemma_filter_pred(p, i);
    }
    lemma_filter_all_templates(f, p);
}

proof fn lemma_filter_all_templates(s: Seq<TemplateView>, p: spec_fn(TemplateView) -> bool)
    requires
        forall|i: int| 0 <= i < s.len() ==> p(#[trigger] s[i]),
    ensures
        s.filter(p) == s,
    decreases s.len(),
{
    reveal_with_fuel(Seq::filter, 1);
    if s.len() > 0 {
        lemma_filter_all_templates(s.drop_last(), p);
        assert(p(s[s.len() - 1]));
        assert(s.drop_last().push(s.last()) =~= s);
    } else {
        assert(s.filter(p) =~= s);
    }
}

/// Saving a template under a new name and then deleting that name gives
/// back the templates as they were.
pub proof fn law_delete_undoes_new_save(ts: Seq<TemplateView>, t: TemplateView)
    requires
        !has_name(ts, t.name),
    ensures
        without_name(upserted(ts, t), t.name) == ts,
{
    law_save_keeps_others(ts, t);
    let p = |x: TemplateView| x.name != t.name;
    assert forall|i: int| 0 <= i < ts.len() implies p(#[trigger] ts[i]) by {}
    lemma_filter_all_templates(ts, p);
}

/// Names that are unique stay unique when a template is saved.
pub proof fn law_save_keeps_names_unique(ts: Seq<TemplateView>, t: TemplateView)
    requires
        forall|i: int, j: int| 0 <= i < j < ts.len() ==> (#[trigger] ts[i]).name != (#[trigger] ts[j]).name,
    ensures
        forall|i: int, j: int| 0 <= i < j < upserted(ts, t).len()
            ==> (#[trigger] upserted(ts, t)[i]).name != (#[trigger] upserted(ts, t)[j]).name,
{
    lemma_first_named(ts, t.name);
    let u = upserted(ts, t);
    let k = first_named(ts, t.name);
    assert forall|i: int, j: int| 0 <= i < j < u.len() implies (#[trigger] u[i]).name != (#[trigger] u[j]).name by {
        if k >= 0 {
            if i == k {
                assert(ts[j].name != ts[k].name);
            } else if j == k {
                assert(ts[i].name != ts[k].name);
            } else {
                assert(u[i] == ts[i] && u[j] == ts[j]);
            }
        } else {
            if j == ts.len() {
                assert(u[i] == ts[i]);
            } else {
                assert(u[i] == ts[i] && u[j] == ts[j]);
            }
        }
    }
}

/// The name of the file that holds the templates, in the home directory.
pub open spec fn templates_file_name() -> Seq<char> {
    ".iso_maker_templates.json"@
}

/// Whether `s` ends with `suffix`.
pub open spec fn ends_with(s: Seq<char>, suffix: Seq<char>) -> bool {
    suffix.len() <= s.len() && s.subrange(s.len() - suffix.len(), s.len() as int) == suffix
}

/// The prefix of a Windows verbatim path, `\\?\`.
pub open spec fn verbatim_prefix() -> Seq<char> {
    seq!['\\', '\\', '?', '\\']
}

/// `base` and `name` joined by nothing, a slash or a backslash.
pub open spec fn joined(r: Seq<char>, base: Seq<char>, name: Seq<char>) -> bool {
    r == base + name || r == base.push('/') + name || r == base.push('\\') + name
}

/// `name` adjoined to the path `base`: appended as it is when `base` is
/// empty or ends in a slash; after a separator, a slash or a backslash by
/// platform, when `base` ends in anything but a slash, a backslash or a
/// colon; and, after a backslash or a colon, with or without a separator
/// (the platforms differ there).
pub open spec fn path_joined(r: Seq<char>, base: Seq<char>, name: Seq<char>) -> bool {
    if base.len() == 0 || base.last() == '/' {
        r == base + name
    } else if base.last() != '\\' && base.last() != ':' {
        r == base.push('/') + name || r == base.push('\\') + name
    } else {
        joined(r, base, name)
    }
}

/// Calls `Path::join` of std on `base` and a single relative file name,
/// read back as a string (losslessly, both being UTF-8). The name is
/// adjoined to the path: as it is after an empty path or a slash, after the
/// platform's separator (a slash, or a backslash on Windows) after any other
/// last character but a backslash or a colon, whose handling differs by
/// platform and is left open. Of a Windows verbatim base, which the platform
/// may normalise, only the ending is claimed.
#[verifier::external_body]
fn join_path(base: &str, file_name: &str) -> (r: String)
    requires
        file_name@.len() > 2,
        forall|i: int| 0 <= i < file_name@.len() ==> #[trigger] file_name@[i] != '/' && file_name@[i] != '\\' && file_name@[i] != ':',
    ensures
        ends_with(r@, file_name@),
        !(base@.len() >= 4 && base@.take(4) == verbatim_prefix()) ==> path_joined(r@, base@, file_name@),
{
    std::path::Path::new(base).join(file_name).to_string_lossy().into_owned()
}

/// The directory that holds the template store: the home directory, or `.`
/// when there is none.
pub open spec fn store_directory(home: Option<String>) -> Seq<char> {
    match home {
        Some(h) => h@,
        None => "."@,
    }
}

/// The path of the template store: the file `.iso_maker_templates.json` in
/// the home directory, or in `.` when there is no home directory, joined to
/// it as a path (see [`path_joined`]): `./.iso_maker_templates.json` or
/// `.\\.iso_maker_templates.json` without a home, `/home/u/` plus the name
/// for `/home/u/`, and `/home/u` with a separator and the name for `/home/u`.
pub fn templates_path(home: Option<String>) -> (r: String)
    ensures
        ends_with(r@, templates_file_name()),
        !(store_directory(home).len() >= 4 && store_directory(home).take(4) == verbatim_prefix())
            ==> path_joined(r@, store_directory(home), templates_file_name()),
{
    let base = match home {
        Some(h) => h,
        None => String::from_str("."),
    };
    proof { reveal_strlit(".iso_maker_templates.json"); }
    join_path(base.as_str(), ".iso_maker_templates.json")
}

} // verus!
