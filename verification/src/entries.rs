//! Daily entries and the index files above them.

use indexmap::IndexMap;
use serde_yaml::Value;
use vstd::prelude::*;

use crate::daily_logic::{
    any_input_date, default_entry_template, default_template, effective_folder, opt_string_view,
    opt_view, parse_rfc3339_date_in_offset, paths_for_date, paths_of, read_date_input,
    render_template, rendered, ConfigView, DailyPluginConfig,
};
use crate::date::{
    format_date, law_number_identifies, local_day, moment_reading, month_name, two_digits,
    year_text, CalendarDate, LocalDateTime,
};
use crate::files::{contents_stay, index_stays, law_added_once, law_index_once};
use crate::frontmatter::{
    distinct_keys, ensure_sequence, frontmatter_fields, is_sequence, lookup, markdown_reading,
    markdown_text, no_fields, parse_markdown, plain_fields, reads_as, save_sequence, sequence_of,
    serialize_markdown, set_field, text_field, text_list, text_of, with_field, Field, NewField,
};
use crate::session::{
    exists_asked, now_asked, outcome, read_asked, stopped, text_outcome, write_asked, Outcome,
    Session, Stop, Talk,
};
use crate::text::{concat, contains, occurs, same_text, trim, trimmed, views};
use crate::workspace::{
    among, fs_path, link_target, parse_target, reference, relative_ref, root_index_rel_candidates,
    root_rel_candidates, to_fs_path,
};

verus! {

/// The workspace and its settings.
#[derive(Debug)]
pub struct DailyState {
    pub workspace_root: Option<String>,
    pub config: DailyPluginConfig,
}

/// What the state holds.
pub struct StateView {
    pub root: Option<Seq<char>>,
    pub config: ConfigView,
}

impl View for DailyState {
    type V = StateView;

    open spec fn view(&self) -> StateView {
        StateView { root: opt_string_view(self.workspace_root), config: self.config@ }
    }
}

impl StateView {
    /// The folder of the hierarchy.
    pub open spec fn folder(self) -> Seq<char> {
        effective_folder(self.config.entry_folder)
    }

    /// The path of a workspace file in the file system.
    pub open spec fn at(self, rel: Seq<char>) -> Seq<char> {
        fs_path(rel, self.root)
    }
}

impl Default for DailyState {
    fn default() -> (r: Self)
        ensures
            r.workspace_root is None,
            r.config.entry_folder is None,
            r.config.entry_template is None,
            !r.config.migrated_legacy_config,
    {
        DailyState { workspace_root: None, config: DailyPluginConfig::default() }
    }
}

impl Clone for DailyState {
    fn clone(&self) -> (r: Self)
        ensures
            r == *self,
    {
        DailyState { workspace_root: self.workspace_root.clone(), config: self.config.clone() }
    }
}

impl DailyState {
    /// The root of the workspace, if one is known.
    pub fn root(&self) -> (r: Option<&str>)
        ensures
            opt_view(r) == self@.root,
    {
        match &self.workspace_root {
            Some(root) => Some(root.as_str()),
            None => None,
        }
    }

    /// The path of a workspace file in the file system.
    pub fn at(&self, rel: &str) -> (r: String)
        ensures
            r@ == self@.at(rel@),
    {
        to_fs_path(rel, self.root())
    }
}

// ---------------------------------------------------------------------------
// The root index
// ---------------------------------------------------------------------------

/// The first of the candidates that exists.
pub open spec fn first_existing(s: Talk, st: StateView, candidates: Seq<Seq<char>>) -> (
    Talk,
    Outcome<Option<Seq<char>>>,
)
    decreases candidates.len(),
{
    if candidates.len() == 0 {
        (s, Outcome::Got(None))
    } else {
        let (s1, o) = exists_asked(s, st.at(candidates[0]));
        match o {
            Outcome::Got(true) => (s1, Outcome::Got(Some(candidates[0]))),
            Outcome::Got(false) => first_existing(s1, st, candidates.drop_first()),
            _ => (s1, stopped(o)),
        }
    }
}

/// The outcome of a result that is a text or nothing.
pub open spec fn opt_outcome(r: Result<Option<String>, Stop>) -> Outcome<Option<Seq<char>>> {
    match r {
        Ok(value) => Outcome::Got(opt_string_view(value)),
        Err(Stop::Fail(message)) => Outcome::Failed(message@),
        Err(Stop::Ask(action)) => Outcome::Waiting(action@),
    }
}

/// The root index, if there is one.
pub fn find_existing_root_index_rel(session: &mut Session, state: &DailyState) -> (r: Result<
    Option<String>,
    Stop,
>)
    ensures
        (final(session)@, opt_outcome(r)) == first_existing(
            old(session)@,
            state@,
            root_rel_candidates(state@.root),
        ),
{
    let candidates = root_index_rel_candidates(state.root());
    let ghost all = views(candidates@);
    let mut i: usize = 0;
    assert(all.skip(0) =~= all);
    while i < candidates.len()
        invariant
            i <= candidates@.len(),
            all == views(candidates@),
            all == root_rel_candidates(state@.root),
            first_existing(session@, state@, all.skip(i as int)) == first_existing(
                old(session)@,
                state@,
                all,
            ),
        decreases candidates@.len() - i,
    {
        assert(all.skip(i as int)[0] == candidates@[i as int]@);
        assert(all.skip(i as int).drop_first() =~= all.skip(i + 1));
        let path = state.at(candidates[i].as_str());
        match session.file_exists(path.as_str()) {
            Ok(true) => return Ok(Some(candidates[i].clone())),
            Ok(false) => {},
            Err(stop) => return Err(stop),
        }
        i = i + 1;
    }
    Ok(None)
}

// ---------------------------------------------------------------------------
// Index files
// ---------------------------------------------------------------------------

/// Writes a file with these fields and this body.
pub open spec fn markdown_written(
    s: Talk,
    path: Seq<char>,
    fields: Seq<(Seq<char>, Field)>,
    body: Seq<char>,
) -> (Talk, Outcome<()>) {
    match markdown_text(fields, body) {
        Ok(content) => write_asked(s, path, content),
        Err(message) => (s, Outcome::Failed(message)),
    }
}

/// Writes a file with these fields and this body. Where the fields are plain, what
/// is written reads as them again.
pub fn write_markdown(
    session: &mut Session,
    fs_path: &str,
    map: &IndexMap<String, Value>,
    body: &str,
) -> (r: Result<(), Stop>)
    ensures
        (final(session)@, outcome(r)) == markdown_written(
            old(session)@,
            fs_path@,
            frontmatter_fields(*map),
            body@,
        ),
        plain_fields(frontmatter_fields(*map)) ==> reads_as(
            markdown_text(frontmatter_fields(*map), body@),
            frontmatter_fields(*map),
            body@,
        ),
{
    match serialize_markdown(map, body) {
        Ok(content) => session.write_file(fs_path, content.as_str()),
        Err(message) => Err(Stop::Fail(message)),
    }
}

/// Reads a file: its fields and its body.
pub open spec fn markdown_asked(s: Talk, path: Seq<char>) -> (
    Talk,
    Outcome<(Seq<(Seq<char>, Field)>, Seq<char>)>,
) {
    let (s1, o) = read_asked(s, path);
    match o {
        Outcome::Got(content) => match markdown_reading(content) {
            Ok(file) => (s1, Outcome::Got(file)),
            Err(message) => (s1, Outcome::Failed(message)),
        },
        _ => (s1, stopped(o)),
    }
}

/// The outcome of a result that is a file.
pub open spec fn file_outcome(r: Result<(IndexMap<String, Value>, String), Stop>) -> Outcome<
    (Seq<(Seq<char>, Field)>, Seq<char>),
> {
    match r {
        Ok(file) => Outcome::Got((frontmatter_fields(file.0), file.1@)),
        Err(Stop::Fail(message)) => Outcome::Failed(message@),
        Err(Stop::Ask(action)) => Outcome::Waiting(action@),
    }
}

/// Reads a file: its fields, no two with the same name, and its body.
pub fn read_parsed(session: &mut Session, fs_path: &str) -> (r: Result<
    (IndexMap<String, Value>, String),
    Stop,
>)
    ensures
        (final(session)@, file_outcome(r)) == markdown_asked(old(session)@, fs_path@),
        r matches Ok(file) ==> distinct_keys(frontmatter_fields(file.0)),
{
    match session.read_file(fs_path) {
        Ok(content) => match parse_markdown(content.as_str()) {
            Ok(file) => Ok(file),
            Err(message) => Err(Stop::Fail(message)),
        },
        Err(stop) => Err(stop),
    }
}

/// The fields with a text set where it is not there yet, and whether it was not.
pub open spec fn settled_field(
    fields: Seq<(Seq<char>, Field)>,
    key: Seq<char>,
    value: Option<Seq<char>>,
) -> (Seq<(Seq<char>, Field)>, bool) {
    if value is None || text_of(fields, key) == value {
        (fields, false)
    } else {
        (with_field(fields, key, Field::Text(value->0)), true)
    }
}

fn settle_field(map: &mut IndexMap<String, Value>, key: &str, value: Option<&str>) -> (r: bool)
    ensures
        (frontmatter_fields(*final(map)), r) == settled_field(
            frontmatter_fields(*old(map)),
            key@,
            opt_view(value),
        ),
{
    match value {
        Some(text) => {
            let same = match text_field(map, key) {
                Some(current) => same_text(current.as_str(), text),
                None => false,
            };
            if same {
                false
            } else {
                set_field(map, key, NewField::Text(text.to_owned()));
                true
            }
        },
        None => false,
    }
}

/// The body of an index: what it has, or its title as a heading.
pub open spec fn index_body(body: Seq<char>, title: Seq<char>) -> Seq<char> {
    if trimmed(body).len() == 0 {
        "\n# "@ + title + "\n"@
    } else {
        body
    }
}

/// The fields that an index file must have.
pub open spec fn index_fields(
    fields: Seq<(Seq<char>, Field)>,
    title: Seq<char>,
    description: Option<Seq<char>>,
    part_of: Option<Seq<char>>,
) -> (Seq<(Seq<char>, Field)>, bool) {
    let (f1, c1) = settled_field(fields, "title"@, Some(title));
    let (f2, c2) = settled_field(f1, "description"@, description);
    let (f3, c3) = settled_field(f2, "part_of"@, part_of);
    if lookup(f3, "contents"@) matches Some(Field::List(_)) {
        (f3, c1 || c2 || c3)
    } else {
        (with_field(f3, "contents"@, text_list(Seq::empty())), true)
    }
}

/// Makes an index file what it must be, where it is not: writes it where it is
/// missing, lacks something or has no body.
pub open spec fn index_settled(
    s: Talk,
    path: Seq<char>,
    file: (Seq<(Seq<char>, Field)>, Seq<char>),
    found: bool,
    title: Seq<char>,
    description: Option<Seq<char>>,
    part_of: Option<Seq<char>>,
) -> (Talk, Outcome<bool>) {
    let (fields, changed) = index_fields(file.0, title, description, part_of);
    if !found || changed || trimmed(file.1).len() == 0 {
        let (s1, o) = markdown_written(s, path, fields, index_body(file.1, title));
        match o {
            Outcome::Got(_) => (s1, Outcome::Got(!found)),
            _ => (s1, stopped(o)),
        }
    } else {
        (s, Outcome::Got(!found))
    }
}

/// What is written for an index file with these fields and this body, if anything
/// is.
pub open spec fn index_change(
    file: (Seq<(Seq<char>, Field)>, Seq<char>),
    found: bool,
    title: Seq<char>,
    description: Option<Seq<char>>,
    part_of: Option<Seq<char>>,
) -> Option<(Seq<(Seq<char>, Field)>, Seq<char>)> {
    let (fields, changed) = index_fields(file.0, title, description, part_of);
    if !found || changed || trimmed(file.1).len() == 0 {
        Some((fields, index_body(file.1, title)))
    } else {
        None
    }
}

/// What seeing to an index file writes, if anything.
pub open spec fn index_to_write(
    s: Talk,
    st: StateView,
    rel: Seq<char>,
    title: Seq<char>,
    description: Option<Seq<char>>,
    parent: Option<Seq<char>>,
) -> Option<(Seq<(Seq<char>, Field)>, Seq<char>)> {
    let part_of = parent_reference(rel, parent);
    let (s1, o1) = exists_asked(s, st.at(rel));
    match o1 {
        Outcome::Got(true) => match markdown_asked(s1, st.at(rel)).1 {
            Outcome::Got(file) => index_change(file, true, title, description, part_of),
            _ => None,
        },
        Outcome::Got(false) => index_change(
            (Seq::empty(), Seq::empty()),
            false,
            title,
            description,
            part_of,
        ),
        _ => None,
    }
}

/// The reference to a parent, if there is one.
pub open spec fn parent_reference(rel: Seq<char>, parent: Option<Seq<char>>) -> Option<Seq<char>> {
    match parent {
        Some(p) => Some(reference(rel, p)),
        None => None,
    }
}

/// Whether what is written, if anything is, reads as it was written.
pub open spec fn reads_again(written: Option<(Seq<(Seq<char>, Field)>, Seq<char>)>) -> bool {
    written matches Some(w) ==> reads_as(markdown_text(w.0, w.1), w.0, w.1)
}

/// Whether what is written, if anything is, has plain fields.
pub open spec fn writes_plain(written: Option<(Seq<(Seq<char>, Field)>, Seq<char>)>) -> bool {
    written matches Some(w) ==> plain_fields(w.0)
}

/// Sees to an index file; whether it was missing.
pub open spec fn index_ensured(
    s: Talk,
    st: StateView,
    rel: Seq<char>,
    title: Seq<char>,
    description: Option<Seq<char>>,
    parent: Option<Seq<char>>,
) -> (Talk, Outcome<bool>) {
    let path = st.at(rel);
    let part_of = match parent {
        Some(p) => Some(reference(rel, p)),
        None => None,
    };
    let (s1, o1) = exists_asked(s, path);
    match o1 {
        Outcome::Got(true) => {
            let (s2, o2) = markdown_asked(s1, path);
            match o2 {
                Outcome::Got(file) => index_settled(
                    s2,
                    path,
                    file,
                    true,
                    title,
                    description,
                    part_of,
                ),
                _ => (s2, stopped(o2)),
            }
        },
        Outcome::Got(false) => index_settled(
            s1,
            path,
            (Seq::empty(), Seq::empty()),
            false,
            title,
            description,
            part_of,
        ),
        _ => (s1, stopped(o1)),
    }
}

/// Sees to an index file: its title, its description and its parent where they
/// are given, its list of contents and its body. Says whether it was missing.
///
/// What is written with plain fields reads as such. A second call then finds the
/// file in order: it asks for nothing but the file, and says that it was there.
pub fn ensure_index_file(
    session: &mut Session,
    state: &DailyState,
    rel_path: &str,
    title: &str,
    description: Option<&str>,
    part_of: Option<&str>,
) -> (r: Result<bool, Stop>)
    ensures
        (final(session)@, outcome(r)) == index_ensured(
            old(session)@,
            state@,
            rel_path@,
            title@,
            opt_view(description),
            opt_view(part_of),
        ),
        ({
            let (st, rel, parent) = (state@, rel_path@, opt_view(part_of));
            let about = opt_view(description);
            let written = index_to_write(old(session)@, st, rel, title@, about, parent);
            writes_plain(written) ==> reads_again(written) && (r is Ok ==> index_stays(
                final(session)@,
                st,
                rel,
                title@,
                about,
                parent,
            ))
        }),
{
    let ghost start = session@;
    let fs_path = state.at(rel_path);
    let found = match session.file_exists(fs_path.as_str()) {
        Ok(found) => found,
        Err(stop) => return Err(stop),
    };
    let (mut fields, body) = if found {
        match read_parsed(session, fs_path.as_str()) {
            Ok(file) => file,
            Err(stop) => return Err(stop),
        }
    } else {
        let body = String::new();
        assert(body@ =~= Seq::empty());
        (no_fields(), body)
    };
    let ghost file = (frontmatter_fields(fields), body@);
    let parent_ref: Option<String> = match part_of {
        Some(parent) => Some(relative_ref(rel_path, parent)),
        None => None,
    };
    let c1 = settle_field(&mut fields, "title", Some(title));
    let c2 = settle_field(&mut fields, "description", description);
    let c3 = match &parent_ref {
        Some(text) => settle_field(&mut fields, "part_of", Some(text.as_str())),
        None => settle_field(&mut fields, "part_of", None),
    };
    let listed = is_sequence(&fields, "contents");
    if !listed {
        let none: Vec<String> = Vec::new();
        assert(views(none@) =~= Seq::empty());
        save_sequence(&mut fields, "contents", none);
    }
    let empty = trim(body.as_str()).as_str().is_empty();
    if !found || c1 || c2 || c3 || !listed || empty {
        let text: String = if empty {
            concat(concat("\n# ", title).as_str(), "\n")
        } else {
            body
        };
        match write_markdown(session, fs_path.as_str(), &fields, text.as_str()) {
            Ok(_) => {},
            Err(stop) => return Err(stop),
        }
    }
    proof {
        let about = opt_view(description);
        let parent = opt_view(part_of);
        if writes_plain(index_to_write(start, state@, rel_path@, title@, about, parent)) {
            law_index_once(start, state@, rel_path@, title@, about, parent);
        }
    }
    Ok(!found)
}

// ---------------------------------------------------------------------------
// Links between an index and its files
// ---------------------------------------------------------------------------

/// What adding a reference to the contents of an index writes, if anything.
pub open spec fn contents_to_write(s: Talk, st: StateView, index: Seq<char>, child: Seq<char>) -> Option<
    (Seq<(Seq<char>, Field)>, Seq<char>),
> {
    match markdown_asked(s, st.at(index)).1 {
        Outcome::Got(file) => {
            let contents = sequence_of(file.0, "contents"@);
            let target = reference(index, child);
            if contents.contains(target) {
                None
            } else {
                Some((with_field(file.0, "contents"@, text_list(contents.push(target))), file.1))
            }
        },
        _ => None,
    }
}

/// Adds a reference to the contents of an index; whether it was not there yet.
pub open spec fn contents_added(s: Talk, st: StateView, index: Seq<char>, child: Seq<char>) -> (
    Talk,
    Outcome<bool>,
) {
    let (s1, o1) = markdown_asked(s, st.at(index));
    match o1 {
        Outcome::Got(file) => {
            let contents = sequence_of(file.0, "contents"@);
            let target = reference(index, child);
            if contents.contains(target) {
                (s1, Outcome::Got(false))
            } else {
                let fields = with_field(file.0, "contents"@, text_list(contents.push(target)));
                let (s2, o2) = markdown_written(s1, st.at(index), fields, file.1);
                match o2 {
                    Outcome::Got(_) => (s2, Outcome::Got(true)),
                    _ => (s2, stopped(o2)),
                }
            }
        },
        _ => (s1, stopped(o1)),
    }
}

/// Adds a reference to the contents of an index, and says whether it was not there
/// yet.
///
/// What is written with plain fields reads as such. A second call then finds the
/// reference there: it asks for nothing but the file, and says so.
pub fn add_to_contents(
    session: &mut Session,
    state: &DailyState,
    index_rel: &str,
    child_rel: &str,
) -> (r: Result<bool, Stop>)
    ensures
        (final(session)@, outcome(r)) == contents_added(
            old(session)@,
            state@,
            index_rel@,
            child_rel@,
        ),
        ({
            let written = contents_to_write(old(session)@, state@, index_rel@, child_rel@);
            writes_plain(written) ==> reads_again(written) && (r is Ok ==> contents_stay(
                final(session)@,
                state@,
                index_rel@,
                child_rel@,
            ))
        }),
{
    let ghost start = session@;
    let fs_path = state.at(index_rel);
    let (mut fields, body) = match read_parsed(session, fs_path.as_str()) {
        Ok(file) => file,
        Err(stop) => return Err(stop),
    };
    let mut contents = ensure_sequence(&fields, "contents");
    let target = relative_ref(index_rel, child_rel);
    if among(&contents, target.as_str()) {
        proof {
            law_added_once(start, state@, index_rel@, child_rel@);
        }
        return Ok(false);
    }
    let ghost before = views(contents@);
    let ghost added = target@;
    contents.push(target);
    assert(views(contents@) =~= before.push(added));
    save_sequence(&mut fields, "contents", contents);
    match write_markdown(session, fs_path.as_str(), &fields, body.as_str()) {
        Ok(_) => {
            proof {
                if writes_plain(contents_to_write(start, state@, index_rel@, child_rel@)) {
                    law_added_once(start, state@, index_rel@, child_rel@);
                }
            }
            Ok(true)
        },
        Err(stop) => Err(stop),
    }
}

/// Sets the parent of a file.
pub open spec fn parent_set(s: Talk, st: StateView, child: Seq<char>, parent: Seq<char>) -> (
    Talk,
    Outcome<()>,
) {
    let (s1, o1) = markdown_asked(s, st.at(child));
    match o1 {
        Outcome::Got(file) => markdown_written(
            s1,
            st.at(child),
            with_field(file.0, "part_of"@, Field::Text(reference(child, parent))),
            file.1,
        ),
        _ => (s1, stopped(o1)),
    }
}

pub fn set_part_of(
    session: &mut Session,
    state: &DailyState,
    child_rel: &str,
    parent_rel: &str,
) -> (r: Result<(), Stop>)
    ensures
        (final(session)@, outcome(r)) == parent_set(
            old(session)@,
            state@,
            child_rel@,
            parent_rel@,
        ),
{
    let fs_path = state.at(child_rel);
    let (mut fields, body) = match read_parsed(session, fs_path.as_str()) {
        Ok(file) => file,
        Err(stop) => return Err(stop),
    };
    let part_of = relative_ref(child_rel, parent_rel);
    set_field(&mut fields, "part_of", NewField::Text(part_of));
    write_markdown(session, fs_path.as_str(), &fields, body.as_str())
}

// ---------------------------------------------------------------------------
// Templates
// ---------------------------------------------------------------------------

/// The path of a template that is given by a path or link with this target.
pub open spec fn template_path(setting: Seq<char>, target: Seq<char>) -> Seq<char> {
    if target.len() == 0 {
        setting
    } else {
        target
    }
}

/// The template of new entries. A setting with a line break or a placeholder is
/// the template itself; any other leads to a file with the template. Where that
/// file cannot be read or is blank, the template is the default one.
pub open spec fn template_found(s: Talk, st: StateView) -> (Talk, Outcome<Seq<char>>) {
    match st.config.entry_template {
        Some(t) => {
            let setting = trimmed(t);
            if occurs(setting, "\n"@) || occurs(setting, "{{"@) {
                (s, Outcome::Got(setting))
            } else {
                let path = template_path(setting, link_target(setting).path);
                let (s1, o) = read_asked(s, st.at(path));
                match o {
                    Outcome::Got(content) => if trimmed(content).len() > 0 {
                        (s1, Outcome::Got(content))
                    } else {
                        (s1, Outcome::Got(default_template()))
                    },
                    Outcome::Failed(_) => (s1, Outcome::Got(default_template())),
                    Outcome::Waiting(ask) => (s1, Outcome::Waiting(ask)),
                }
            }
        },
        None => (s, Outcome::Got(default_template())),
    }
}

pub fn resolve_template_source(session: &mut Session, state: &DailyState) -> (r: Result<
    String,
    Stop,
>)
    ensures
        (final(session)@, text_outcome(r)) == template_found(old(session)@, state@),
{
    let setting = match &state.config.entry_template {
        Some(template) => trim(template.as_str()),
        None => return Ok(default_entry_template().to_owned()),
    };
    if contains(setting.as_str(), "\n") || contains(setting.as_str(), "{{") {
        return Ok(setting);
    }
    let target = parse_target(setting.as_str());
    let path: String = if target.path.as_str().is_empty() {
        setting
    } else {
        target.path
    };
    let fs_path = state.at(path.as_str());
    match session.read_file(fs_path.as_str()) {
        Ok(content) => if trim(content.as_str()).as_str().is_empty() {
            Ok(default_entry_template().to_owned())
        } else {
            Ok(content)
        },
        Err(Stop::Fail(_)) => Ok(default_entry_template().to_owned()),
        Err(Stop::Ask(action)) => Err(Stop::Ask(action)),
    }
}

// ---------------------------------------------------------------------------
// The entry of a date
// ---------------------------------------------------------------------------

/// The title of a month index.
pub open spec fn month_title(date: CalendarDate) -> Seq<char> {
    month_name(date.month as int) + " "@ + year_text(date.year as int)
}

/// The title of an entry.
pub open spec fn entry_title(date: CalendarDate) -> Seq<char> {
    month_name(date.month as int) + " "@ + two_digits(date.day as int) + ", "@ + year_text(
        date.year as int,
    )
}

/// Sees to the index files above an entry.
pub open spec fn indexes_ensured(
    s: Talk,
    st: StateView,
    date: CalendarDate,
    root_index: Option<Seq<char>>,
) -> (Talk, Outcome<()>) {
    let paths = paths_of(st.folder(), date);
    let (s1, o1) = index_ensured(
        s,
        st,
        paths.daily_index,
        "Daily Index"@,
        Some("Date-based daily entry hierarchy"@),
        root_index,
    );
    match o1 {
        Outcome::Got(_) => {
            let (s2, o2) = index_ensured(
                s1,
                st,
                paths.year_index,
                year_text(date.year as int),
                None,
                Some(paths.daily_index),
            );
            match o2 {
                Outcome::Got(_) => {
                    let (s3, o3) = index_ensured(
                        s2,
                        st,
                        paths.month_index,
                        month_title(date),
                        None,
                        Some(paths.year_index),
                    );
                    match o3 {
                        Outcome::Got(_) => (s3, Outcome::Got(())),
                        _ => (s3, stopped(o3)),
                    }
                },
                _ => (s2, stopped(o2)),
            }
        },
        _ => (s1, stopped(o1)),
    }
}

/// Enters the hierarchy into the root index, where there is another one.
pub open spec fn root_linked(
    s: Talk,
    st: StateView,
    daily_index: Seq<char>,
    root_index: Option<Seq<char>>,
) -> (Talk, Outcome<()>) {
    if root_index is None || root_index == Some(daily_index) {
        (s, Outcome::Got(()))
    } else {
        let (s1, o1) = contents_added(s, st, root_index->0, daily_index);
        match o1 {
            Outcome::Got(_) => (s1, Outcome::Got(())),
            _ => (s1, stopped(o1)),
        }
    }
}

/// Enters each index into the one above it.
pub open spec fn indexes_linked(
    s: Talk,
    st: StateView,
    date: CalendarDate,
    root_index: Option<Seq<char>>,
) -> (Talk, Outcome<()>) {
    let paths = paths_of(st.folder(), date);
    let (s1, o1) = root_linked(s, st, paths.daily_index, root_index);
    match o1 {
        Outcome::Got(_) => {
            let (s2, o2) = contents_added(s1, st, paths.daily_index, paths.year_index);
            match o2 {
                Outcome::Got(_) => {
                    let (s3, o3) = contents_added(s2, st, paths.year_index, paths.month_index);
                    match o3 {
                        Outcome::Got(_) => (s3, Outcome::Got(())),
                        _ => (s3, stopped(o3)),
                    }
                },
                _ => (s2, stopped(o2)),
            }
        },
        _ => (s1, stopped(o1)),
    }
}

/// Writes the entry from its template.
pub open spec fn entry_written(s: Talk, st: StateView, date: CalendarDate) -> (Talk, Outcome<()>) {
    let paths = paths_of(st.folder(), date);
    let (s1, o1) = template_found(s, st);
    match o1 {
        Outcome::Got(template) => {
            let (s2, o2) = now_asked(s1);
            match o2 {
                Outcome::Got(now) => write_asked(
                    s2,
                    st.at(paths.entry),
                    rendered(
                        template,
                        entry_title(date),
                        date,
                        reference(paths.entry, paths.month_index),
                        now,
                    ),
                ),
                _ => (s2, stopped(o2)),
            }
        },
        _ => (s1, stopped(o1)),
    }
}

/// Sees to the entry itself; whether it was missing.
pub open spec fn entry_created(s: Talk, st: StateView, date: CalendarDate) -> (
    Talk,
    Outcome<bool>,
) {
    let paths = paths_of(st.folder(), date);
    let (s1, o1) = exists_asked(s, st.at(paths.entry));
    match o1 {
        Outcome::Got(true) => (s1, Outcome::Got(false)),
        Outcome::Got(false) => {
            let (s2, o2) = entry_written(s1, st, date);
            match o2 {
                Outcome::Got(_) => (s2, Outcome::Got(true)),
                _ => (s2, stopped(o2)),
            }
        },
        _ => (s1, stopped(o1)),
    }
}

/// Links the entry and its month index to each other.
pub open spec fn entry_linked(s: Talk, st: StateView, date: CalendarDate) -> (Talk, Outcome<()>) {
    let paths = paths_of(st.folder(), date);
    let (s1, o1) = parent_set(s, st, paths.entry, paths.month_index);
    match o1 {
        Outcome::Got(_) => {
            let (s2, o2) = contents_added(s1, st, paths.month_index, paths.entry);
            match o2 {
                Outcome::Got(_) => (s2, Outcome::Got(())),
                _ => (s2, stopped(o2)),
            }
        },
        _ => (s1, stopped(o1)),
    }
}

/// Sees to the entry of a date and to all that belongs to it: the path of the
/// entry, and whether it was missing.
pub open spec fn entry_ensured(s: Talk, st: StateView, date: CalendarDate) -> (
    Talk,
    Outcome<(Seq<char>, bool)>,
) {
    let paths = paths_of(st.folder(), date);
    let (s1, o1) = first_existing(s, st, root_rel_candidates(st.root));
    match o1 {
        Outcome::Got(root_index) => {
            let (s2, o2) = indexes_ensured(s1, st, date, root_index);
            match o2 {
                Outcome::Got(_) => {
                    let (s3, o3) = indexes_linked(s2, st, date, root_index);
                    match o3 {
                        Outcome::Got(_) => {
                            let (s4, o4) = entry_created(s3, st, date);
                            match o4 {
                                Outcome::Got(created) => {
                                    let (s5, o5) = entry_linked(s4, st, date);
                                    match o5 {
                                        Outcome::Got(_) => (
                                            s5,
                                            Outcome::Got((paths.entry, created)),
                                        ),
                                        _ => (s5, stopped(o5)),
                                    }
                                },
                                _ => (s4, stopped(o4)),
                            }
                        },
                        _ => (s3, stopped(o3)),
                    }
                },
                _ => (s2, stopped(o2)),
            }
        },
        _ => (s1, stopped(o1)),
    }
}

/// The outcome of a result that is an entry.
pub open spec fn entry_outcome(r: Result<(String, bool), Stop>) -> Outcome<(Seq<char>, bool)> {
    match r {
        Ok(value) => Outcome::Got((value.0@, value.1)),
        Err(Stop::Fail(message)) => Outcome::Failed(message@),
        Err(Stop::Ask(action)) => Outcome::Waiting(action@),
    }
}

fn ensure_indexes(
    session: &mut Session,
    state: &DailyState,
    date: CalendarDate,
    root_index: Option<&str>,
) -> (r: Result<(), Stop>)
    requires
        date.valid(),
    ensures
        (final(session)@, outcome(r)) == indexes_ensured(
            old(session)@,
            state@,
            date,
            opt_view(root_index),
        ),
{
    let folder = state.config.effective_entry_folder();
    let paths = paths_for_date(folder.as_str(), date);
    let year_title = format_date(date, "%Y");
    let month_title = format_date(date, "%B %Y");
    match ensure_index_file(
        session,
        state,
        paths.daily_index.as_str(),
        "Daily Index",
        Some("Date-based daily entry hierarchy"),
        root_index,
    ) {
        Ok(_) => {},
        Err(stop) => return Err(stop),
    }
    match ensure_index_file(
        session,
        state,
        paths.year_index.as_str(),
        year_title.as_str(),
        None,
        Some(paths.daily_index.as_str()),
    ) {
        Ok(_) => {},
        Err(stop) => return Err(stop),
    }
    match ensure_index_file(
        session,
        state,
        paths.month_index.as_str(),
        month_title.as_str(),
        None,
        Some(paths.year_index.as_str()),
    ) {
        Ok(_) => Ok(()),
        Err(stop) => Err(stop),
    }
}

fn link_root(
    session: &mut Session,
    state: &DailyState,
    daily_index: &str,
    root_index: Option<&str>,
) -> (r: Result<(), Stop>)
    ensures
        (final(session)@, outcome(r)) == root_linked(
            old(session)@,
            state@,
            daily_index@,
            opt_view(root_index),
        ),
{
    if let Some(root) = root_index {
        if !same_text(root, daily_index) {
            match add_to_contents(session, state, root, daily_index) {
                Ok(_) => {},
                Err(stop) => return Err(stop),
            }
        }
    }
    Ok(())
}

fn link_indexes(
    session: &mut Session,
    state: &DailyState,
    date: CalendarDate,
    root_index: Option<&str>,
) -> (r: Result<(), Stop>)
    requires
        date.valid(),
    ensures
        (final(session)@, outcome(r)) == indexes_linked(
            old(session)@,
            state@,
            date,
            opt_view(root_index),
        ),
{
    let folder = state.config.effective_entry_folder();
    let paths = paths_for_date(folder.as_str(), date);
    match link_root(session, state, paths.daily_index.as_str(), root_index) {
        Ok(_) => {},
        Err(stop) => return Err(stop),
    }
    match add_to_contents(session, state, paths.daily_index.as_str(), paths.year_index.as_str()) {
        Ok(_) => {},
        Err(stop) => return Err(stop),
    }
    match add_to_contents(session, state, paths.year_index.as_str(), paths.month_index.as_str()) {
        Ok(_) => Ok(()),
        Err(stop) => Err(stop),
    }
}

fn write_entry(session: &mut Session, state: &DailyState, date: CalendarDate) -> (r: Result<
    (),
    Stop,
>)
    requires
        date.valid(),
    ensures
        (final(session)@, outcome(r)) == entry_written(old(session)@, state@, date),
{
    let folder = state.config.effective_entry_folder();
    let paths = paths_for_date(folder.as_str(), date);
    let part_of = relative_ref(paths.entry.as_str(), paths.month_index.as_str());
    let title = format_date(date, "%B %d, %Y");
    let template = match resolve_template_source(session, state) {
        Ok(template) => template,
        Err(stop) => return Err(stop),
    };
    let now = match session.now() {
        Ok(now) => now,
        Err(stop) => return Err(stop),
    };
    let content = render_template(template.as_str(), title.as_str(), date, part_of.as_str(), &now);
    let fs_path = state.at(paths.entry.as_str());
    session.write_file(fs_path.as_str(), content.as_str())
}

fn create_entry(session: &mut Session, state: &DailyState, date: CalendarDate) -> (r: Result<
    bool,
    Stop,
>)
    requires
        date.valid(),
    ensures
        (final(session)@, outcome(r)) == entry_created(old(session)@, state@, date),
{
    let folder = state.config.effective_entry_folder();
    let paths = paths_for_date(folder.as_str(), date);
    let fs_path = state.at(paths.entry.as_str());
    match session.file_exists(fs_path.as_str()) {
        Ok(true) => Ok(false),
        Ok(false) => match write_entry(session, state, date) {
            Ok(_) => Ok(true),
            Err(stop) => Err(stop),
        },
        Err(stop) => Err(stop),
    }
}

fn link_entry(session: &mut Session, state: &DailyState, date: CalendarDate) -> (r: Result<
    (),
    Stop,
>)
    requires
        date.valid(),
    ensures
        (final(session)@, outcome(r)) == entry_linked(old(session)@, state@, date),
{
    let folder = state.config.effective_entry_folder();
    let paths = paths_for_date(folder.as_str(), date);
    match set_part_of(session, state, paths.entry.as_str(), paths.month_index.as_str()) {
        Ok(_) => {},
        Err(stop) => return Err(stop),
    }
    match add_to_contents(session, state, paths.month_index.as_str(), paths.entry.as_str()) {
        Ok(_) => Ok(()),
        Err(stop) => Err(stop),
    }
}

/// Sees to the entry of a date: the index files above it, the entry itself, and
/// the links between them. Gives the path of the entry and whether it is new.
pub fn ensure_daily_entry_for_date(
    session: &mut Session,
    date: CalendarDate,
    state: &DailyState,
) -> (r: Result<(String, bool), Stop>)
    requires
        date.valid(),
    ensures
        (final(session)@, entry_outcome(r)) == entry_ensured(old(session)@, state@, date),
{
    let folder = state.config.effective_entry_folder();
    let paths = paths_for_date(folder.as_str(), date);
    let root_index = match find_existing_root_index_rel(session, state) {
        Ok(root_index) => root_index,
        Err(stop) => return Err(stop),
    };
    let root_rel: Option<&str> = match &root_index {
        Some(rel) => Some(rel.as_str()),
        None => None,
    };
    match ensure_indexes(session, state, date, root_rel) {
        Ok(_) => {},
        Err(stop) => return Err(stop),
    }
    match link_indexes(session, state, date, root_rel) {
        Ok(_) => {},
        Err(stop) => return Err(stop),
    }
    let created = match create_entry(session, state, date) {
        Ok(created) => created,
        Err(stop) => return Err(stop),
    };
    match link_entry(session, state, date) {
        Ok(_) => Ok((paths.entry, created)),
        Err(stop) => Err(stop),
    }
}

// ---------------------------------------------------------------------------
// The date of a file
// ---------------------------------------------------------------------------

/// The date with a number.
pub open spec fn date_numbered(n: int) -> CalendarDate {
    choose|d: CalendarDate| d.valid() && #[trigger] d.number() == n
}

/// The date that a field holds, as a text that the user could have written.
pub open spec fn field_date(
    fields: Seq<(Seq<char>, Field)>,
    key: Seq<char>,
    now: LocalDateTime,
) -> Option<CalendarDate> {
    match text_of(fields, key) {
        Some(raw) => any_input_date(raw, now),
        None => None,
    }
}

/// The date of the last change, as the field `updated` holds it: a moment counts
/// by the local time of now.
pub open spec fn updated_date(fields: Seq<(Seq<char>, Field)>, now: LocalDateTime) -> Option<
    CalendarDate,
> {
    match text_of(fields, "updated"@) {
        Some(raw) => match moment_reading(raw) {
            Ok(moment) => Some(date_numbered(local_day(moment, now.offset))),
            Err(_) => any_input_date(raw, now),
        },
        None => None,
    }
}

/// The date that belongs to a file with these fields: the first that is there of
/// `date`, `created` and `updated`, or today.
pub open spec fn fields_date(fields: Seq<(Seq<char>, Field)>, now: LocalDateTime) -> CalendarDate {
    match field_date(fields, "date"@, now) {
        Some(date) => date,
        None => match field_date(fields, "created"@, now) {
            Some(date) => date,
            None => match updated_date(fields, now) {
                Some(date) => date,
                None => now.date,
            },
        },
    }
}

/// Finds the date that belongs to a file.
pub open spec fn date_inferred(s: Talk, st: StateView, rel: Seq<char>) -> (
    Talk,
    Outcome<CalendarDate>,
) {
    let (s1, o1) = markdown_asked(s, st.at(rel));
    match o1 {
        Outcome::Got(file) => {
            let (s2, o2) = now_asked(s1);
            match o2 {
                Outcome::Got(now) => (s2, Outcome::Got(fields_date(file.0, now))),
                _ => (s2, stopped(o2)),
            }
        },
        _ => (s1, stopped(o1)),
    }
}

fn read_field_date(map: &IndexMap<String, Value>, key: &str, now: &LocalDateTime) -> (r: Option<
    CalendarDate,
>)
    requires
        now.valid(),
    ensures
        r == field_date(frontmatter_fields(*map), key@, *now),
        r matches Some(d) ==> d.valid(),
{
    match text_field(map, key) {
        Some(raw) => match read_date_input(Some(raw.as_str()), now) {
            Ok(date) => Some(date),
            Err(_) => None,
        },
        None => None,
    }
}

fn read_updated_date(map: &IndexMap<String, Value>, now: &LocalDateTime) -> (r: Option<
    CalendarDate,
>)
    requires
        now.valid(),
    ensures
        r == updated_date(frontmatter_fields(*map), *now),
        r matches Some(d) ==> d.valid(),
{
    match text_field(map, "updated") {
        Some(raw) => {
            let offset = now.offset();
            match parse_rfc3339_date_in_offset(raw.as_str(), &offset) {
                Some(date) => {
                    proof {
                        law_number_identifies(date, date_numbered(date.number()));
                    }
                    Some(date)
                },
                None => match read_date_input(Some(raw.as_str()), now) {
                    Ok(date) => Some(date),
                    Err(_) => None,
                },
            }
        },
        None => None,
    }
}

/// The date that belongs to a file: what its frontmatter says, or today.
pub fn infer_entry_date(session: &mut Session, path_rel: &str, state: &DailyState) -> (r: Result<
    CalendarDate,
    Stop,
>)
    ensures
        (final(session)@, outcome(r)) == date_inferred(old(session)@, state@, path_rel@),
        r matches Ok(d) ==> d.valid(),
{
    let fs_path = state.at(path_rel);
    let (fields, _body) = match read_parsed(session, fs_path.as_str()) {
        Ok(file) => file,
        Err(stop) => return Err(stop),
    };
    let now = match session.now() {
        Ok(now) => now,
        Err(stop) => return Err(stop),
    };
    if let Some(date) = read_field_date(&fields, "date", &now) {
        return Ok(date);
    }
    if let Some(date) = read_field_date(&fields, "created", &now) {
        return Ok(date);
    }
    if let Some(date) = read_updated_date(&fields, &now) {
        return Ok(date);
    }
    Ok(now.date)
}

} // verus!
