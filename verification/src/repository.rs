//! Where tickets live and how a directory listing becomes a ticket tree:
//! ticket formats, the todo root, and the choice of the file and child
//! directory behind each ticket.
use vstd::prelude::*;

use crate::convert::{decode, ConvertError, Direction};
use crate::external::{decoded_toon, parsed_json};
use crate::model::TicketRaw;
use crate::text::chars_of;

verus! {

/// Source format of a ticket file.
#[derive(Debug, Clone, Copy, PartialEq, Eq, Structural)]
pub enum TicketFormat {
    Toon,
    Json,
}

/// `char::to_ascii_lowercase`.
pub open spec fn ascii_lower(c: char) -> char {
    if 'A' <= c && c <= 'Z' {
        ((c as int) + 32) as char
    } else {
        c
    }
}

/// `str::to_ascii_lowercase`.
pub open spec fn ascii_lowercase(s: Seq<char>) -> Seq<char> {
    s.map_values(|c: char| ascii_lower(c))
}

/// The format named by an extension, ignoring ASCII case.
pub open spec fn format_of_extension(ext: Seq<char>) -> Option<TicketFormat> {
    if ascii_lowercase(ext) == seq!['t', 'o', 'o', 'n'] {
        Some(TicketFormat::Toon)
    } else if ascii_lowercase(ext) == seq!['j', 's', 'o', 'n'] {
        Some(TicketFormat::Json)
    } else {
        None
    }
}

/// `i` is the position of the last `.` in `name`.
pub open spec fn is_last_dot(name: Seq<char>, i: int) -> bool {
    &&& 0 <= i < name.len()
    &&& name[i] == '.'
    &&& forall|j: int| i < j < name.len() ==> name[j] != '.'
}

/// Position of the last `.` in a file name.
pub open spec fn last_dot(name: Seq<char>) -> Option<int> {
    if name.contains('.') {
        Some(choose|i: int| is_last_dot(name, i))
    } else {
        None
    }
}

/// `Path::extension` of a file name: what follows the last `.`, unless the
/// name is `..`, holds no `.`, or its only `.` leads it (as in `.todo`).
pub open spec fn extension(name: Seq<char>) -> Option<Seq<char>> {
    if name == seq!['.', '.'] {
        None
    } else {
        match last_dot(name) {
            None => None,
            Some(i) => if i == 0 {
                None
            } else {
                Some(name.skip(i + 1))
            },
        }
    }
}

/// `Path::file_stem` of a file name: the name without its extension.
pub open spec fn file_stem(name: Seq<char>) -> Seq<char> {
    if name == seq!['.', '.'] {
        name
    } else {
        match last_dot(name) {
            None => name,
            Some(i) => if i == 0 {
                name
            } else {
                name.take(i)
            },
        }
    }
}

/// The format of a ticket file, from its name's extension.
pub open spec fn format_of_name(name: Seq<char>) -> Option<TicketFormat> {
    match extension(name) {
        Some(ext) => format_of_extension(ext),
        None => None,
    }
}

proof fn lemma_last_dot(name: Seq<char>, i: int)
    requires
        is_last_dot(name, i),
    ensures
        last_dot(name) == Some(i),
{
    assert(name.contains('.'));
    let k = choose|k: int| is_last_dot(name, k);
    assert(is_last_dot(name, k));
    if k < i {
        assert(name[i] != '.');
    } else if i < k {
        assert(name[k] != '.');
    }
}

proof fn lemma_greatest_dot(name: Seq<char>, j: int)
    requires
        0 <= j < name.len(),
        name[j] == '.',
    ensures
        exists|i: int| is_last_dot(name, i),
    decreases name.len() - j,
{
    if exists|m: int| j < m < name.len() && name[m] == '.' {
        let m = choose|m: int| j < m < name.len() && name[m] == '.';
        lemma_greatest_dot(name, m);
    } else {
        assert(is_last_dot(name, j));
    }
}

proof fn lemma_last_dot_some(name: Seq<char>)
    requires
        last_dot(name) is Some,
    ensures
        is_last_dot(name, last_dot(name)->0),
{
    let j = choose|j: int| 0 <= j < name.len() && name[j] == '.';
    lemma_greatest_dot(name, j);
}

proof fn lemma_no_dot(name: Seq<char>)
    requires
        forall|j: int| 0 <= j < name.len() ==> name[j] != '.',
    ensures
        last_dot(name) is None,
{
    if name.contains('.') {
        let j = choose|j: int| 0 <= j < name.len() && name[j] == '.';
        assert(name[j] != '.');
    }
}

/// Extensions are matched without regard to ASCII case: two extensions
/// that differ only in case name the same format, and `toon` and `json`
/// name different ones.
pub proof fn law_extension_case_insensitive(e1: Seq<char>, e2: Seq<char>)
    ensures
        ascii_lowercase(e1) == ascii_lowercase(e2) ==> format_of_extension(e1)
            == format_of_extension(e2),
        format_of_extension(seq!['t', 'o', 'o', 'n']) == Some(TicketFormat::Toon),
        format_of_extension(seq!['j', 's', 'o', 'n']) == Some(TicketFormat::Json),
        format_of_extension(seq!['T', 'O', 'O', 'N']) == Some(TicketFormat::Toon),
        format_of_extension(seq!['J', 'S', 'O', 'N']) == Some(TicketFormat::Json),
        format_of_extension(e1) is Some ==> e1.len() == 4,
{
    assert(ascii_lowercase(seq!['t', 'o', 'o', 'n']) =~= seq!['t', 'o', 'o', 'n']);
    assert(ascii_lowercase(seq!['j', 's', 'o', 'n']) =~= seq!['j', 's', 'o', 'n']);
    assert(ascii_lowercase(seq!['T', 'O', 'O', 'N']) =~= seq!['t', 'o', 'o', 'n']);
    assert(ascii_lowercase(seq!['J', 'S', 'O', 'N']) =~= seq!['j', 's', 'o', 'n']);
    assert(seq!['t', 'o', 'o', 'n'] != seq!['j', 's', 'o', 'n']) by {
        assert(seq!['t', 'o', 'o', 'n'][0] != seq!['j', 's', 'o', 'n'][0]);
    }
    if format_of_extension(e1) is Some {
        assert(ascii_lowercase(e1).len() == e1.len());
    }
}

/// A file name `stem.ext` (with `ext` free of dots and `stem` not empty)
/// has the extension `ext` and the stem `stem`, save the name `..`; a name
/// without a dot has no extension and is its own stem.
pub proof fn law_stem_and_extension(stem: Seq<char>, ext: Seq<char>)
    requires
        stem.len() > 0,
        forall|j: int| 0 <= j < ext.len() ==> ext[j] != '.',
        !(stem == seq!['.'] && ext.len() == 0),
    ensures
        extension(stem + seq!['.'] + ext) == Some(ext),
        file_stem(stem + seq!['.'] + ext) == stem,
        (forall|j: int| 0 <= j < stem.len() ==> stem[j] != '.') ==> extension(stem) is None
            && file_stem(stem) == stem,
{
    let name = stem + seq!['.'] + ext;
    let i = stem.len() as int;
    assert(name[i] == '.');
    assert forall|j: int| i < j < name.len() implies name[j] != '.' by {
        assert(name[j] == ext[j - i - 1]);
    }
    lemma_last_dot(name, i);
    assert(name != seq!['.', '.']) by {
        if name == seq!['.', '.'] {
            assert(name.len() == 2);
            assert(stem.len() == 1 && ext.len() == 0);
            assert(name[0] == stem[0]);
            assert(stem =~= seq!['.']);
        }
    }
    assert(name.skip(i + 1) =~= ext);
    assert(name.take(i) =~= stem);
    if forall|j: int| 0 <= j < stem.len() ==> stem[j] != '.' {
        lemma_no_dot(stem);
    }
}

impl TicketFormat {
    /// Map a filesystem extension to a ticket format. Case-insensitive.
    pub fn from_extension(ext: &str) -> (r: Option<TicketFormat>)
        ensures
            r == format_of_extension(ext@),
    {
        let chars = chars_of(ext);
        let mut lower: Vec<char> = Vec::new();
        let mut i: usize = 0;
        while i < chars.len()
            invariant
                i <= chars.len(),
                lower@ == ascii_lowercase(chars@.take(i as int)),
            decreases chars.len() - i,
        {
            let c = chars[i];
            let l = if 'A' <= c && c <= 'Z' {
                ((c as u32) + 32) as u8 as char
            } else {
                c
            };
            assert(l == ascii_lower(c)) by {
                if 'A' <= c && c <= 'Z' {
                    assert((c as u32) + 32 < 256);
                }
            }
            lower.push(l);
            i = i + 1;
            assert(lower@ =~= ascii_lowercase(chars@.take(i as int)));
        }
        assert(chars@.take(chars.len() as int) =~= chars@);
        if lower.len() == 4 && lower[0] == 't' && lower[1] == 'o' && lower[2] == 'o' && lower[3]
            == 'n' {
            assert(lower@ =~= seq!['t', 'o', 'o', 'n']);
            return Some(TicketFormat::Toon);
        }
        if lower.len() == 4 && lower[0] == 'j' && lower[1] == 's' && lower[2] == 'o' && lower[3]
            == 'n' {
            assert(lower@ =~= seq!['j', 's', 'o', 'n']);
            return Some(TicketFormat::Json);
        }
        proof {
            if lower@ == seq!['t', 'o', 'o', 'n'] {
                assert(lower[0] == 't');
            }
            if lower@ == seq!['j', 's', 'o', 'n'] {
                assert(lower[0] == 'j');
            }
        }
        None
    }

    /// The format of a ticket file, from the extension of its name.
    pub fn from_path(name: &str) -> (r: Option<TicketFormat>)
        ensures
            r == format_of_name(name@),
    {
        match extension_of(name) {
            Some(ext) => TicketFormat::from_extension(ext.as_str()),
            None => None,
        }
    }
}

/// The extension of a file name, as `Path::extension` gives it.
pub fn extension_of(name: &str) -> (r: Option<String>)
    ensures
        match r {
            Some(e) => extension(name@) == Some(e@),
            None => extension(name@) is None,
        },
{
    let chars = chars_of(name);
    if chars.len() == 2 && chars[0] == '.' && chars[1] == '.' {
        assert(chars@ =~= seq!['.', '.']);
        return None;
    }
    assert(chars@ != seq!['.', '.']) by {
        if chars@ == seq!['.', '.'] {
            assert(chars@.len() == 2);
        }
    }
    match last_dot_index(chars.as_slice()) {
        None => None,
        Some(i) => if i == 0 {
            None
        } else {
            proof {
                lemma_last_dot_some(chars@);
            }
            let mut ext = String::new();
            let mut j: usize = i + 1;
            while j < chars.len()
                invariant
                    i < j <= chars.len(),
                    ext@ == chars@.subrange(i + 1, j as int),
                decreases chars.len() - j,
            {
                crate::external::push_char(&mut ext, chars[j]);
                j = j + 1;
                assert(ext@ =~= chars@.subrange(i + 1, j as int));
            }
            assert(ext@ =~= chars@.skip(i + 1));
            Some(ext)
        },
    }
}

/// Whether a file name has exactly the extension `ext` (case matters), as
/// the converter selects its source files.
pub fn has_extension(name: &str, ext: &str) -> (r: bool)
    ensures
        r == (extension(name@) == Some(ext@)),
{
    match extension_of(name) {
        Some(e) => e == ext.to_owned(),
        None => false,
    }
}

/// Position of the last `.` in a file name.
pub fn last_dot_index(name: &[char]) -> (r: Option<usize>)
    ensures
        match r {
            Some(i) => last_dot(name@) == Some(i as int),
            None => last_dot(name@) is None,
        },
{
    let mut k: usize = name.len();
    while k > 0
        invariant
            k <= name.len(),
            forall|j: int| k <= j < name.len() ==> name@[j] != '.',
        decreases k,
    {
        if name[k - 1] == '.' {
            proof {
                lemma_last_dot(name@, k - 1);
            }
            return Some(k - 1);
        }
        k = k - 1;
    }
    proof {
        lemma_no_dot(name@);
    }
    None
}

/// The names under a project root that hold its tickets, most preferred
/// first.
pub open spec fn is_todo_dir_name_spec(name: Seq<char>) -> bool {
    name == seq!['.', 't', 'o', 'd', 'o'] || name == seq!['t', 'o', 'd', 'o']
}

/// Whether a directory's own name marks it as a todo directory.
pub fn is_todo_dir_name(name: &str) -> (r: bool)
    ensures
        r == is_todo_dir_name_spec(name@),
{
    let c = chars_of(name);
    let dot = c.len() == 5 && c[0] == '.' && c[1] == 't' && c[2] == 'o' && c[3] == 'd' && c[4]
        == 'o';
    let plain = c.len() == 4 && c[0] == 't' && c[1] == 'o' && c[2] == 'd' && c[3] == 'o';
    proof {
        if dot {
            assert(c@ =~= seq!['.', 't', 'o', 'd', 'o']);
        }
        if plain {
            assert(c@ =~= seq!['t', 'o', 'd', 'o']);
        }
        if c@ == seq!['.', 't', 'o', 'd', 'o'] {
            assert(c@.len() == 5 && c@[0] == '.' && c@[1] == 't');
        }
        if c@ == seq!['t', 'o', 'd', 'o'] {
            assert(c@.len() == 4 && c@[0] == 't');
        }
    }
    dot || plain
}

/// The todo directory to use under a project root, given which of its
/// candidates `.todo` and `todo` are directories: `.todo` is preferred.
pub fn find_root(dot_todo_is_dir: bool, todo_is_dir: bool) -> (r: Option<&'static str>)
    ensures
        dot_todo_is_dir ==> (r matches Some(name) && name@ == ".todo"@),
        !dot_todo_is_dir && todo_is_dir ==> (r matches Some(name) && name@ == "todo"@),
        !dot_todo_is_dir && !todo_is_dir ==> r is None,
{
    if dot_todo_is_dir {
        Some(".todo")
    } else if todo_is_dir {
        Some("todo")
    } else {
        None
    }
}

/// The title of a ticket: its `title`, else its `name`, else the stem of its
/// file or directory.
pub open spec fn ticket_title_spec(raw: TicketRaw, stem: Seq<char>) -> Seq<char> {
    match raw.title {
        Some(t) => t@,
        None => match raw.name {
            Some(n) => n@,
            None => stem,
        },
    }
}

/// A ticket's own title always wins: whatever its name and its file's
/// stem, a ticket with a title is shown by that title; without a title it is
/// shown by its name whatever the stem; with neither, by the stem.
pub proof fn law_ticket_title(raw: TicketRaw, other: TicketRaw, stem: Seq<char>, other_stem: Seq<char>)
    ensures
        raw.title matches Some(t) ==> ticket_title_spec(raw, stem) == t@,
        raw.title is Some && other.title == raw.title ==> ticket_title_spec(raw, stem)
            == ticket_title_spec(other, other_stem),
        raw.title is None && raw.name is Some ==> ticket_title_spec(raw, stem) == raw.name->0@,
        raw.title is None && raw.name is None ==> ticket_title_spec(raw, stem) == stem,
{
}

pub fn ticket_title(raw: &TicketRaw, stem: String) -> (r: String)
    ensures
        r@ == ticket_title_spec(*raw, stem@),
{
    match &raw.title {
        Some(t) => t.clone(),
        None => match &raw.name {
            Some(n) => n.clone(),
            None => stem,
        },
    }
}

/// Where a ticket's fields are read from.
#[derive(Debug)]
pub enum TicketSource {
    /// Its ticket file, in the given format.
    File(String, TicketFormat),
    /// The index ticket of its directory of subtickets.
    DirIndex(String),
    /// Nowhere: the ticket has no fields.
    Nothing,
}

/// A ticket is read from its file when it has one, else from the index of
/// its directory.
pub fn ticket_source(group: &Group) -> (r: TicketSource)
    ensures
        match group.file {
            Some((n, f)) => r matches TicketSource::File(m, g) && m@ == n@ && g == f,
            None => match group.dir {
                Some(d) => r matches TicketSource::DirIndex(e) && e@ == d@,
                None => r is Nothing,
            },
        },
{
    match &group.file {
        Some((n, f)) => TicketSource::File(n.clone(), *f),
        None => match &group.dir {
            Some(d) => TicketSource::DirIndex(d.clone()),
            None => TicketSource::Nothing,
        },
    }
}

/// The file name a ticket's path points at: its ticket file, else its
/// directory of subtickets, else none (an empty path).
pub fn ticket_path_name(group: &Group) -> (r: Option<String>)
    ensures
        match group.file {
            Some((n, _)) => r matches Some(m) && m@ == n@,
            None => match group.dir {
                Some(d) => r matches Some(m) && m@ == d@,
                None => r is None,
            },
        },
{
    match &group.file {
        Some((n, _)) => Some(n.clone()),
        None => match &group.dir {
            Some(d) => Some(d.clone()),
            None => None,
        },
    }
}

/// The index ticket files of a directory, in the order they are tried:
/// `index` before `_`, TOON before JSON.
pub fn index_candidates() -> (r: Vec<(&'static str, TicketFormat)>)
    ensures
        r@.len() == 4,
        r@[0].0@ == "index.toon"@ && r@[0].1 == TicketFormat::Toon,
        r@[1].0@ == "index.json"@ && r@[1].1 == TicketFormat::Json,
        r@[2].0@ == "_.toon"@ && r@[2].1 == TicketFormat::Toon,
        r@[3].0@ == "_.json"@ && r@[3].1 == TicketFormat::Json,
{
    let mut r: Vec<(&'static str, TicketFormat)> = Vec::new();
    r.push(("index.toon", TicketFormat::Toon));
    r.push(("index.json", TicketFormat::Json));
    r.push(("_.toon", TicketFormat::Toon));
    r.push(("_.json", TicketFormat::Json));
    r
}


/// Read the text of a ticket file in its format: TOON through
/// `toon_format`, JSON through `serde_json`.
pub fn decode_ticket_text(text: &str, format: TicketFormat) -> (r: Result<
    serde_json::Value,
    ConvertError,
>)
    ensures
        match format {
            TicketFormat::Toon => match r {
                Ok(v) => decoded_toon(text@) == Some(v),
                Err(e) => decoded_toon(text@) is None && e is InvalidToon,
            },
            TicketFormat::Json => match r {
                Ok(v) => parsed_json(text@) == Some(v),
                Err(e) => parsed_json(text@) is None && e is InvalidJson,
            },
        },
{
    match format {
        TicketFormat::Toon => decode(text, Direction::ToonToJson),
        TicketFormat::Json => decode(text, Direction::JsonToToon),
    }
}

/// A parsed ticket, or the blank ticket where the text could not be read as
/// a ticket: a malformed file never stops the browser.
pub fn ticket_or_blank(parsed: Option<TicketRaw>) -> (r: TicketRaw)
    ensures
        match parsed {
            Some(t) => r == t,
            None => r.is_blank(),
        },
{
    match parsed {
        Some(t) => t,
        None => TicketRaw::default(),
    }
}

/// Position of the first index candidate that parsed, in candidate order.
pub fn first_parsed_index(results: &Vec<Option<TicketRaw>>) -> (r: Option<usize>)
    ensures
        match r {
            Some(i) => {
                &&& i < results@.len()
                &&& results@[i as int] is Some
                &&& forall|j: int| 0 <= j < i ==> results@[j] is None
            },
            None => forall|j: int| 0 <= j < results@.len() ==> results@[j] is None,
        },
{
    let mut i: usize = 0;
    while i < results.len()
        invariant
            i <= results@.len(),
            forall|j: int| 0 <= j < i ==> results@[j] is None,
        decreases results.len() - i,
    {
        if results[i].is_some() {
            return Some(i);
        }
        i = i + 1;
    }
    None
}

/// The ticket of a directory's index: the first candidate that parsed, in
/// candidate order, else the blank ticket.
pub fn index_ticket(results: Vec<Option<TicketRaw>>) -> (r: TicketRaw)
    ensures
        forall|i: int|
            0 <= i < results@.len() && (#[trigger] results@[i]) is Some && (forall|j: int|
                0 <= j < i ==> results@[j] is None) ==> r == results@[i]->0,
        (forall|j: int| 0 <= j < results@.len() ==> results@[j] is None) ==> r.is_blank(),
{
    match first_parsed_index(&results) {
        Some(i) => {
            let mut results = results;
            let picked = results.remove(i);
            ticket_or_blank(picked)
        },
        None => TicketRaw::default(),
    }
}


// ---------------------------------------------------------------------------
// Grouping a directory listing into tickets
// ---------------------------------------------------------------------------

/// One entry of a directory listing: its file name and whether it is a
/// directory.
#[derive(Debug)]
pub struct DirEntryInfo {
    pub name: String,
    pub is_dir: bool,
}

/// The files behind one ticket of a directory: the ticket file (with its
/// format) and the directory of subtickets, both keyed by `key` (the file's
/// stem, the directory's name).
#[derive(Debug)]
pub struct Group {
    pub key: String,
    pub file: Option<(String, TicketFormat)>,
    pub dir: Option<String>,
}

/// Two ticket files with the same stem.
#[derive(Debug)]
pub enum Conflict {
    /// `chosen` (TOON) replaced the earlier `dropped`.
    Preferred { chosen: String, dropped: String },
    /// `ignored` was left out; `kept` was loaded first.
    Ignored { ignored: String, kept: String },
}

pub type EntryView = (Seq<char>, bool);

pub type GroupView = (Seq<char>, Option<(Seq<char>, TicketFormat)>, Option<Seq<char>>);

/// A conflict as plain values: whether the new file was preferred, the new
/// file, and the other one.
pub type ConflictView = (bool, Seq<char>, Seq<char>);

pub open spec fn entry_view(e: DirEntryInfo) -> EntryView {
    (e.name@, e.is_dir)
}

pub open spec fn group_view(g: Group) -> GroupView {
    (
        g.key@,
        match g.file {
            Some((n, f)) => Some((n@, f)),
            None => None,
        },
        match g.dir {
            Some(d) => Some(d@),
            None => None,
        },
    )
}

pub open spec fn conflict_view(c: Conflict) -> ConflictView {
    match c {
        Conflict::Preferred { chosen, dropped } => (true, chosen@, dropped@),
        Conflict::Ignored { ignored, kept } => (false, ignored@, kept@),
    }
}

/// Lexicographic order of names by character (the order of `String` and of
/// UTF-8 file names).
pub open spec fn name_lt(a: Seq<char>, b: Seq<char>) -> bool
    decreases a.len(),
{
    if a.len() == 0 {
        b.len() > 0
    } else if b.len() == 0 {
        false
    } else if a[0] != b[0] {
        a[0] < b[0]
    } else {
        name_lt(a.drop_first(), b.drop_first())
    }
}

/// `e` inserted into a name-sorted listing after every entry whose name is
/// not greater.
pub open spec fn insert_by_name(s: Seq<EntryView>, e: EntryView) -> Seq<EntryView>
    decreases s.len(),
{
    if s.len() == 0 {
        seq![e]
    } else if name_lt(e.0, s[0].0) {
        seq![e] + s
    } else {
        seq![s[0]] + insert_by_name(s.drop_first(), e)
    }
}

/// The listing sorted by name, equal names kept in order.
pub open spec fn sort_by_name(s: Seq<EntryView>) -> Seq<EntryView>
    decreases s.len(),
{
    if s.len() == 0 {
        Seq::empty()
    } else {
        insert_by_name(sort_by_name(s.drop_last()), s.last())
    }
}

/// `i` is the first group keyed `key`.
pub open spec fn is_group_of(groups: Seq<GroupView>, key: Seq<char>, i: int) -> bool {
    &&& 0 <= i < groups.len()
    &&& groups[i].0 == key
    &&& forall|j: int| 0 <= j < i ==> groups[j].0 != key
}

pub open spec fn group_index(groups: Seq<GroupView>, key: Seq<char>) -> Option<int> {
    if exists|i: int| 0 <= i < groups.len() && #[trigger] groups[i].0 == key {
        Some(choose|i: int| is_group_of(groups, key, i))
    } else {
        None
    }
}

/// `g` inserted before the first group with a greater key.
pub open spec fn insert_group(groups: Seq<GroupView>, g: GroupView) -> Seq<GroupView>
    decreases groups.len(),
{
    if groups.len() == 0 {
        seq![g]
    } else if name_lt(g.0, groups[0].0) {
        seq![g] + groups
    } else {
        seq![groups[0]] + insert_group(groups.drop_first(), g)
    }
}

/// One listing entry taken into the groups: a directory becomes the child
/// directory of the group with its name; a ticket file becomes the file of
/// the group of its stem, unless that group already has one, in which case
/// a TOON file replaces a non-TOON file and any other file is ignored.
pub open spec fn group_step(
    st: (Seq<GroupView>, Seq<ConflictView>),
    e: EntryView,
) -> (Seq<GroupView>, Seq<ConflictView>) {
    let (groups, conflicts) = st;
    if e.1 {
        match group_index(groups, e.0) {
            Some(i) => (groups.update(i, (groups[i].0, groups[i].1, Some(e.0))), conflicts),
            None => (insert_group(groups, (e.0, None, Some(e.0))), conflicts),
        }
    } else {
        match format_of_name(e.0) {
            None => st,
            Some(f) => {
                let stem = file_stem(e.0);
                match group_index(groups, stem) {
                    None => (insert_group(groups, (stem, Some((e.0, f)), None)), conflicts),
                    Some(i) => match groups[i].1 {
                        None => (groups.update(i, (groups[i].0, Some((e.0, f)), groups[i].2)), conflicts),
                        Some((en, ef)) => if ef != TicketFormat::Toon && f == TicketFormat::Toon {
                            (
                                groups.update(i, (groups[i].0, Some((e.0, f)), groups[i].2)),
                                conflicts.push((true, e.0, en)),
                            )
                        } else {
                            (groups, conflicts.push((false, e.0, en)))
                        },
                    },
                }
            },
        }
    }
}

/// The groups and conflicts after taking in the entries in order.
pub open spec fn group_all(s: Seq<EntryView>) -> (Seq<GroupView>, Seq<ConflictView>)
    decreases s.len(),
{
    if s.len() == 0 {
        (Seq::empty(), Seq::empty())
    } else {
        group_step(group_all(s.drop_last()), s.last())
    }
}

proof fn lemma_group_index_first(groups: Seq<GroupView>, key: Seq<char>, i: int)
    requires
        is_group_of(groups, key, i),
    ensures
        group_index(groups, key) == Some(i),
{
    assert(groups[i].0 == key);
    let k = choose|k: int| is_group_of(groups, key, k);
    assert(is_group_of(groups, key, k));
    if k < i {
        assert(groups[k].0 != key);
    } else if i < k {
        assert(groups[i].0 != key);
    }
}

proof fn lemma_least_group(groups: Seq<GroupView>, key: Seq<char>, j: int)
    requires
        0 <= j < groups.len(),
        groups[j].0 == key,
    ensures
        exists|i: int| is_group_of(groups, key, i),
    decreases j,
{
    if exists|m: int| 0 <= m < j && #[trigger] groups[m].0 == key {
        let m = choose|m: int| 0 <= m < j && #[trigger] groups[m].0 == key;
        lemma_least_group(groups, key, m);
    } else {
        assert(is_group_of(groups, key, j));
    }
}

proof fn lemma_group_index_some(groups: Seq<GroupView>, key: Seq<char>)
    requires
        group_index(groups, key) is Some,
    ensures
        is_group_of(groups, key, group_index(groups, key)->0),
{
    let j = choose|j: int| 0 <= j < groups.len() && #[trigger] groups[j].0 == key;
    lemma_least_group(groups, key, j);
}

/// Whether `a` sorts before `b`.
pub fn name_less(a: &[char], b: &[char]) -> (r: bool)
    ensures
        r == name_lt(a@, b@),
{
    let mut i: usize = 0;
    assert(a@.skip(0) =~= a@);
    assert(b@.skip(0) =~= b@);
    while i < a.len() && i < b.len() && a[i] == b[i]
        invariant
            i <= a.len(),
            i <= b.len(),
            forall|j: int| 0 <= j < i ==> a@[j] == b@[j],
            name_lt(a@.skip(i as int), b@.skip(i as int)) == name_lt(a@, b@),
        decreases a.len() - i,
    {
        assert(a@.skip(i as int).drop_first() =~= a@.skip(i + 1));
        assert(b@.skip(i as int).drop_first() =~= b@.skip(i + 1));
        i = i + 1;
    }
    if i == a.len() {
        i < b.len()
    } else if i == b.len() {
        false
    } else {
        assert(a@.skip(i as int)[0] == a@[i as int]);
        assert(b@.skip(i as int)[0] == b@[i as int]);
        a[i] < b[i]
    }
}

/// `insert_by_name` places `e` at the first entry whose name is greater.
proof fn lemma_insert_by_name_at(s: Seq<EntryView>, e: EntryView, j: int)
    requires
        0 <= j <= s.len(),
        forall|k: int| 0 <= k < j ==> !name_lt(e.0, #[trigger] s[k].0),
        j < s.len() ==> name_lt(e.0, s[j].0),
    ensures
        insert_by_name(s, e) == s.take(j) + seq![e] + s.skip(j),
    decreases s.len(),
{
    if s.len() == 0 {
        assert(s.take(j) + seq![e] + s.skip(j) =~= seq![e]);
    } else if j == 0 {
        assert(s.take(j) + seq![e] + s.skip(j) =~= seq![e] + s);
    } else {
        let t = s.drop_first();
        assert forall|k: int| 0 <= k < j - 1 implies !name_lt(e.0, #[trigger] t[k].0) by {
            assert(t[k] == s[k + 1]);
        }
        if j - 1 < t.len() {
            assert(t[j - 1] == s[j]);
        }
        lemma_insert_by_name_at(t, e, j - 1);
        assert(!name_lt(e.0, s[0].0));
        assert(seq![s[0]] + (t.take(j - 1) + seq![e] + t.skip(j - 1)) =~= s.take(j) + seq![e]
            + s.skip(j));
    }
}

/// Where an entry named `name` goes in a name-sorted listing.
fn entry_position(sorted: &Vec<DirEntryInfo>, name: &[char]) -> (j: usize)
    ensures
        j <= sorted@.len(),
        forall|k: int| 0 <= k < j ==> !name_lt(name@, #[trigger] sorted@[k].name@),
        j < sorted@.len() ==> name_lt(name@, sorted@[j as int].name@),
{
    let mut j: usize = 0;
    while j < sorted.len()
        invariant
            j <= sorted@.len(),
            forall|k: int| 0 <= k < j ==> !name_lt(name@, #[trigger] sorted@[k].name@),
        decreases sorted.len() - j,
    {
        let sn = chars_of(sorted[j].name.as_str());
        if name_less(name, sn.as_slice()) {
            return j;
        }
        j = j + 1;
    }
    j
}

/// The listing sorted by name.
fn sort_entries(entries: Vec<DirEntryInfo>) -> (r: Vec<DirEntryInfo>)
    ensures
        r@.map_values(|e: DirEntryInfo| entry_view(e)) == sort_by_name(
            entries@.map_values(|e: DirEntryInfo| entry_view(e)),
        ),
{
    let ghost input = entries@.map_values(|e: DirEntryInfo| entry_view(e));
    let mut rest = entries;
    let mut sorted: Vec<DirEntryInfo> = Vec::new();
    let ghost n = input.len();
    let mut taken: usize = 0;
    let total = rest.len();
    assert(input.take(0) =~= Seq::<EntryView>::empty());
    assert(input.skip(0) =~= input);
    while rest.len() > 0
        invariant
            total == n,
            taken + rest@.len() == n,
            n == input.len(),
            rest@.map_values(|e: DirEntryInfo| entry_view(e)) == input.skip(taken as int),
            sorted@.map_values(|e: DirEntryInfo| entry_view(e)) == sort_by_name(
                input.take(taken as int),
            ),
        decreases rest.len(),
    {
        let ghost before = sorted@.map_values(|e: DirEntryInfo| entry_view(e));
        let ghost old_rest = rest@;
        let e = rest.remove(0);
        let ghost ev = entry_view(e);
        assert(ev == input[taken as int]) by {
            assert(input.skip(taken as int)[0] == input[taken as int]);
        }
        proof {
            assert(rest@ =~= old_rest.skip(1));
            assert(old_rest.skip(1).map_values(|e: DirEntryInfo| entry_view(e)) =~= old_rest.map_values(
                |e: DirEntryInfo| entry_view(e),
            ).skip(1));
            assert(input.skip(taken as int).skip(1) =~= input.skip(taken + 1));
        }
        let en = chars_of(e.name.as_str());
        let j = entry_position(&sorted, en.as_slice());
        proof {
            assert forall|k: int| 0 <= k < j implies !name_lt(ev.0, #[trigger] before[k].0) by {
                assert(before[k].0 == sorted@[k].name@);
            }
            if j < before.len() {
                assert(before[j as int].0 == sorted@[j as int].name@);
            }
            lemma_insert_by_name_at(before, ev, j as int);
        }
        sorted.insert(j, e);
        proof {
            assert(sorted@.map_values(|e: DirEntryInfo| entry_view(e)) =~= before.take(j as int)
                + seq![ev] + before.skip(j as int));
            assert(input.take(taken + 1).drop_last() =~= input.take(taken as int));
            assert(input.take(taken + 1).last() == ev);
        }
        taken = taken + 1;
    }
    assert(input.take(taken as int) =~= input);
    sorted
}


proof fn lemma_insert_group_at(groups: Seq<GroupView>, g: GroupView, j: int)
    requires
        0 <= j <= groups.len(),
        forall|k: int| 0 <= k < j ==> !name_lt(g.0, #[trigger] groups[k].0),
        j < groups.len() ==> name_lt(g.0, groups[j].0),
    ensures
        insert_group(groups, g) == groups.take(j) + seq![g] + groups.skip(j),
    decreases groups.len(),
{
    if groups.len() == 0 {
        assert(groups.take(j) + seq![g] + groups.skip(j) =~= seq![g]);
    } else if j == 0 {
        assert(groups.take(j) + seq![g] + groups.skip(j) =~= seq![g] + groups);
    } else {
        let t = groups.drop_first();
        assert forall|k: int| 0 <= k < j - 1 implies !name_lt(g.0, #[trigger] t[k].0) by {
            assert(t[k] == groups[k + 1]);
        }
        if j - 1 < t.len() {
            assert(t[j - 1] == groups[j]);
        }
        lemma_insert_group_at(t, g, j - 1);
        assert(!name_lt(g.0, groups[0].0));
        assert(seq![groups[0]] + (t.take(j - 1) + seq![g] + t.skip(j - 1)) =~= groups.take(j)
            + seq![g] + groups.skip(j));
    }
}

pub open spec fn groups_view(v: Seq<Group>) -> Seq<GroupView> {
    v.map_values(|g: Group| group_view(g))
}

pub open spec fn conflicts_view(v: Seq<Conflict>) -> Seq<ConflictView> {
    v.map_values(|c: Conflict| conflict_view(c))
}

/// The first group keyed `key`.
fn find_group(groups: &Vec<Group>, key: &[char]) -> (r: Option<usize>)
    ensures
        match r {
            Some(i) => i < groups@.len() && group_index(groups_view(groups@), key@) == Some(i as int),
            None => group_index(groups_view(groups@), key@) is None,
        },
{
    let ghost gv = groups_view(groups@);
    let mut i: usize = 0;
    while i < groups.len()
        invariant
            i <= groups.len(),
            gv == groups_view(groups@),
            forall|j: int| 0 <= j < i ==> gv[j].0 != key@,
        decreases groups.len() - i,
    {
        let k = chars_of(groups[i].key.as_str());
        assert(gv[i as int].0 == k@);
        if name_less(k.as_slice(), key) || name_less(key, k.as_slice()) {
            proof {
                if k@ == key@ {
                    lemma_name_lt_irreflexive(k@);
                }
            }
        } else {
            proof {
                lemma_name_lt_total(k@, key@);
                lemma_group_index_first(gv, key@, i as int);
            }
            return Some(i);
        }
        i = i + 1;
    }
    None
}

proof fn lemma_name_lt_irreflexive(a: Seq<char>)
    ensures
        !name_lt(a, a),
    decreases a.len(),
{
    if a.len() > 0 {
        lemma_name_lt_irreflexive(a.drop_first());
    }
}

proof fn lemma_name_lt_total(a: Seq<char>, b: Seq<char>)
    requires
        !name_lt(a, b),
        !name_lt(b, a),
    ensures
        a == b,
    decreases a.len(),
{
    if a.len() > 0 && b.len() > 0 {
        lemma_name_lt_total(a.drop_first(), b.drop_first());
        assert(a =~= seq![a[0]] + a.drop_first());
        assert(b =~= seq![b[0]] + b.drop_first());
    } else {
        assert(a.len() == 0 && b.len() == 0);
        assert(a =~= b);
    }
}

/// Where a group keyed `key` goes among key-sorted groups.
fn group_position(groups: &Vec<Group>, key: &[char]) -> (j: usize)
    ensures
        j <= groups@.len(),
        forall|k: int| 0 <= k < j ==> !name_lt(key@, #[trigger] groups_view(groups@)[k].0),
        j < groups@.len() ==> name_lt(key@, groups_view(groups@)[j as int].0),
{
    let mut j: usize = 0;
    while j < groups.len()
        invariant
            j <= groups@.len(),
            forall|k: int| 0 <= k < j ==> !name_lt(key@, #[trigger] groups_view(groups@)[k].0),
        decreases groups.len() - j,
    {
        let k = chars_of(groups[j].key.as_str());
        assert(groups_view(groups@)[j as int].0 == k@);
        if name_less(key, k.as_slice()) {
            return j;
        }
        j = j + 1;
    }
    j
}

fn insert_new_group(groups: &mut Vec<Group>, g: Group)
    ensures
        groups_view(final(groups)@) == insert_group(groups_view(old(groups)@), group_view(g)),
{
    let k = chars_of(g.key.as_str());
    let j = group_position(groups, k.as_slice());
    proof {
        lemma_insert_group_at(groups_view(groups@), group_view(g), j as int);
    }
    let ghost before = groups_view(groups@);
    groups.insert(j, g);
    assert(groups_view(groups@) =~= before.take(j as int) + seq![group_view(g)] + before.skip(
        j as int,
    ));
}

/// `Path::file_stem` of a file name.
pub fn file_stem_of(name: &str) -> (r: String)
    ensures
        r@ == file_stem(name@),
{
    let chars = chars_of(name);
    if chars.len() == 2 && chars[0] == '.' && chars[1] == '.' {
        assert(chars@ =~= seq!['.', '.']);
        return crate::text::string_of(chars.as_slice());
    }
    assert(chars@ != seq!['.', '.']) by {
        if chars@ == seq!['.', '.'] {
            assert(chars@.len() == 2);
        }
    }
    match last_dot_index(chars.as_slice()) {
        None => crate::text::string_of(chars.as_slice()),
        Some(i) => if i == 0 {
            crate::text::string_of(chars.as_slice())
        } else {
            proof {
                lemma_last_dot_some(chars@);
            }
            let stem = crate::text::slice_of(chars.as_slice(), 0, i);
            assert(stem@ =~= chars@.take(i as int));
            crate::text::string_of(stem.as_slice())
        },
    }
}

/// Group a directory listing into tickets: entries are taken in name
/// order; a directory gives the child directory of the ticket with its
/// name; a `.toon` or `.json` file (any case) gives the ticket file of its
/// stem, where a TOON file wins over another file of the same stem and
/// every other clash is reported and ignored. Groups come sorted by key.
pub fn group_entries(entries: Vec<DirEntryInfo>) -> (r: (Vec<Group>, Vec<Conflict>))
    ensures
        (groups_view(r.0@), conflicts_view(r.1@)) == group_all(
            sort_by_name(entries@.map_values(|e: DirEntryInfo| entry_view(e))),
        ),
{
    let sorted = sort_entries(entries);
    let ghost sv = sorted@.map_values(|e: DirEntryInfo| entry_view(e));
    let mut groups: Vec<Group> = Vec::new();
    let mut conflicts: Vec<Conflict> = Vec::new();
    let mut i: usize = 0;
    assert(sv.take(0) =~= Seq::<EntryView>::empty());
    assert(groups_view(groups@) =~= Seq::<GroupView>::empty());
    assert(conflicts_view(conflicts@) =~= Seq::<ConflictView>::empty());
    while i < sorted.len()
        invariant
            i <= sorted.len(),
            sv == sorted@.map_values(|e: DirEntryInfo| entry_view(e)),
            (groups_view(groups@), conflicts_view(conflicts@)) == group_all(sv.take(i as int)),
        decreases sorted.len() - i,
    {
        let ghost st = (groups_view(groups@), conflicts_view(conflicts@));
        let e = &sorted[i];
        let ghost ev = entry_view(*e);
        assert(sv[i as int] == ev);
        assert(sv.take(i + 1).drop_last() =~= sv.take(i as int));
        assert(sv.take(i + 1).last() == ev);
        let name = chars_of(e.name.as_str());
        if e.is_dir {
            match find_group(&groups, name.as_slice()) {
                Some(j) => {
                    let ghost gv = groups_view(groups@);
                    groups[j].dir = Some(e.name.clone());
                    assert(groups_view(groups@) =~= gv.update(
                        j as int,
                        (gv[j as int].0, gv[j as int].1, Some(ev.0)),
                    ));
                },
                None => {
                    insert_new_group(
                        &mut groups,
                        Group { key: e.name.clone(), file: None, dir: Some(e.name.clone()) },
                    );
                },
            }
        } else {
            match TicketFormat::from_path(e.name.as_str()) {
                None => {},
                Some(f) => {
                    let stem = file_stem_of(e.name.as_str());
                    let sc = chars_of(stem.as_str());
                    match find_group(&groups, sc.as_slice()) {
                        None => {
                            insert_new_group(
                                &mut groups,
                                Group { key: stem, file: Some((e.name.clone(), f)), dir: None },
                            );
                        },
                        Some(j) => {
                            let ghost gv = groups_view(groups@);
                            let existing = match &groups[j].file {
                                Some((en, ef)) => Some((en.clone(), *ef)),
                                None => None,
                            };
                            match existing {
                                None => {
                                    groups[j].file = Some((e.name.clone(), f));
                                    assert(groups_view(groups@) =~= gv.update(
                                        j as int,
                                        (gv[j as int].0, Some((ev.0, f)), gv[j as int].2),
                                    ));
                                },
                                Some((en, ef)) => {
                                    if ef != TicketFormat::Toon && f == TicketFormat::Toon {
                                        groups[j].file = Some((e.name.clone(), f));
                                        assert(groups_view(groups@) =~= gv.update(
                                            j as int,
                                            (gv[j as int].0, Some((ev.0, f)), gv[j as int].2),
                                        ));
                                        let ghost cb = conflicts_view(conflicts@);
                                        conflicts.push(
                                            Conflict::Preferred { chosen: e.name.clone(), dropped: en },
                                        );
                                        assert(conflicts_view(conflicts@) =~= cb.push(
                                            conflict_view(conflicts@.last()),
                                        ));
                                    } else {
                                        let ghost cb = conflicts_view(conflicts@);
                                        conflicts.push(
                                            Conflict::Ignored { ignored: e.name.clone(), kept: en },
                                        );
                                        assert(conflicts_view(conflicts@) =~= cb.push(
                                            conflict_view(conflicts@.last()),
                                        ));
                                    }
                                },
                            }
                        },
                    }
                },
            }
        }
        assert((groups_view(groups@), conflicts_view(conflicts@)) == group_step(st, ev));
        i = i + 1;
    }
    assert(sv.take(sorted.len() as int) =~= sv);
    (groups, conflicts)
}


// ---------------------------------------------------------------------------
// Laws
// ---------------------------------------------------------------------------

/// Some group keyed `key` has a TOON ticket file.
pub open spec fn has_toon_group(groups: Seq<GroupView>, key: Seq<char>) -> bool {
    exists|i: int|
        0 <= i < groups.len() && (#[trigger] groups[i]).0 == key && (groups[i].1 matches Some(
            f,
        ) && f.1 == TicketFormat::Toon)
}

/// A listing entry that is a TOON ticket file.
pub open spec fn is_toon_file(e: EntryView) -> bool {
    !e.1 && format_of_name(e.0) == Some(TicketFormat::Toon)
}

proof fn lemma_insert_group_contains(groups: Seq<GroupView>, g: GroupView)
    ensures
        forall|x: GroupView| #[trigger]
            insert_group(groups, g).contains(x) <==> (groups.contains(x) || x == g),
    decreases groups.len(),
{
    if groups.len() == 0 {
        assert(insert_group(groups, g) =~= seq![g]);
        assert forall|x: GroupView| #[trigger]
            insert_group(groups, g).contains(x) <==> (groups.contains(x) || x == g) by {
            if x == g {
                assert(seq![g][0] == x);
            }
        }
    } else if name_lt(g.0, groups[0].0) {
        assert forall|x: GroupView| #[trigger]
            insert_group(groups, g).contains(x) <==> (groups.contains(x) || x == g) by {
            let r = seq![g] + groups;
            if groups.contains(x) {
                let k = choose|k: int| 0 <= k < groups.len() && groups[k] == x;
                assert(r[k + 1] == x);
            }
            if x == g {
                assert(r[0] == x);
            }
            if r.contains(x) {
                let k = choose|k: int| 0 <= k < r.len() && r[k] == x;
                if k > 0 {
                    assert(groups[k - 1] == x);
                }
            }
        }
    } else {
        let t = groups.drop_first();
        lemma_insert_group_contains(t, g);
        assert forall|x: GroupView| #[trigger]
            insert_group(groups, g).contains(x) <==> (groups.contains(x) || x == g) by {
            let rt = insert_group(t, g);
            let r = seq![groups[0]] + rt;
            assert(insert_group(groups, g) == r);
            if groups.contains(x) {
                let k = choose|k: int| 0 <= k < groups.len() && groups[k] == x;
                if k == 0 {
                    assert(r[0] == x);
                } else {
                    assert(t[k - 1] == x);
                    assert(rt.contains(x));
                    let m = choose|m: int| 0 <= m < rt.len() && rt[m] == x;
                    assert(r[m + 1] == x);
                }
            }
            if x == g {
                assert(rt.contains(x));
                let m = choose|m: int| 0 <= m < rt.len() && rt[m] == x;
                assert(r[m + 1] == x);
            }
            if r.contains(x) {
                let k = choose|k: int| 0 <= k < r.len() && r[k] == x;
                if k == 0 {
                    assert(groups[0] == x);
                } else {
                    assert(rt[k - 1] == x);
                    assert(rt.contains(x));
                    if t.contains(x) {
                        let m = choose|m: int| 0 <= m < t.len() && t[m] == x;
                        assert(groups[m + 1] == x);
                    }
                }
            }
        }
    }
}

/// Taking in one more entry keeps every TOON ticket file already chosen,
/// and a TOON ticket file taken in is chosen for its stem.
proof fn lemma_step_keeps_toon(st: (Seq<GroupView>, Seq<ConflictView>), e: EntryView, key: Seq<char>)
    requires
        has_toon_group(st.0, key) || (is_toon_file(e) && file_stem(e.0) == key),
    ensures
        has_toon_group(group_step(st, e).0, key),
{
    let groups = st.0;
    let next = group_step(st, e).0;
    if has_toon_group(groups, key) {
        let w = choose|i: int|
            0 <= i < groups.len() && (#[trigger] groups[i]).0 == key && (groups[i].1 matches Some(
                f,
            ) && f.1 == TicketFormat::Toon);
        let old_g = groups[w];
        // the witness survives or is updated keeping its TOON file
        if e.1 {
            match group_index(groups, e.0) {
                Some(i) => {
                    lemma_group_index_some(groups, e.0);
                    assert(next[w].0 == key);
                    assert(next[w].1 == groups[w].1);
                },
                None => {
                    lemma_insert_group_contains(groups, (e.0, None, Some(e.0)));
                    assert(groups.contains(old_g));
                    assert(next.contains(old_g));
                    let m = choose|m: int| 0 <= m < next.len() && next[m] == old_g;
                    assert(next[m].0 == key);
                },
            }
        } else {
            match format_of_name(e.0) {
                None => {},
                Some(f) => {
                    let stem = file_stem(e.0);
                    match group_index(groups, stem) {
                        None => {
                            lemma_insert_group_contains(groups, (stem, Some((e.0, f)), None));
                            assert(groups.contains(old_g));
                            assert(next.contains(old_g));
                            let m = choose|m: int| 0 <= m < next.len() && next[m] == old_g;
                            assert(next[m].0 == key);
                        },
                        Some(i) => {
                            lemma_group_index_some(groups, stem);
                            if i == w {
                                assert(next == groups);
                            } else {
                                assert(next[w] == groups[w]);
                            }
                        },
                    }
                },
            }
        }
    } else {
        let f = TicketFormat::Toon;
        match group_index(groups, key) {
            None => {
                lemma_insert_group_contains(groups, (key, Some((e.0, f)), None));
                let g = (key, Some((e.0, f)), None::<Seq<char>>);
                assert(next.contains(g));
                let m = choose|m: int| 0 <= m < next.len() && next[m] == g;
                assert(next[m].0 == key);
            },
            Some(i) => {
                lemma_group_index_some(groups, key);
                match groups[i].1 {
                    None => {
                        assert(next[i].0 == key);
                    },
                    Some((en, ef)) => {
                        if ef == TicketFormat::Toon {
                            assert(groups[i].0 == key);
                            assert(has_toon_group(groups, key));
                        }
                        assert(next[i].0 == key);
                    },
                }
            },
        }
    }
}

proof fn lemma_group_all_toon(s: Seq<EntryView>, k: int)
    requires
        0 <= k < s.len(),
        is_toon_file(s[k]),
    ensures
        has_toon_group(group_all(s).0, file_stem(s[k].0)),
    decreases s.len(),
{
    let key = file_stem(s[k].0);
    if k < s.len() - 1 {
        assert(s.drop_last()[k] == s[k]);
        lemma_group_all_toon(s.drop_last(), k);
    }
    lemma_step_keeps_toon(group_all(s.drop_last()), s.last(), key);
}

proof fn lemma_insert_by_name_contains(s: Seq<EntryView>, e: EntryView)
    ensures
        forall|x: EntryView| #[trigger]
            insert_by_name(s, e).contains(x) <==> (s.contains(x) || x == e),
    decreases s.len(),
{
    if s.len() == 0 {
        assert(insert_by_name(s, e) =~= seq![e]);
        assert forall|x: EntryView| #[trigger]
            insert_by_name(s, e).contains(x) <==> (s.contains(x) || x == e) by {
            if x == e {
                assert(seq![e][0] == x);
            }
        }
    } else if name_lt(e.0, s[0].0) {
        assert forall|x: EntryView| #[trigger]
            insert_by_name(s, e).contains(x) <==> (s.contains(x) || x == e) by {
            let r = seq![e] + s;
            if s.contains(x) {
                let k = choose|k: int| 0 <= k < s.len() && s[k] == x;
                assert(r[k + 1] == x);
            }
            if x == e {
                assert(r[0] == x);
            }
            if r.contains(x) {
                let k = choose|k: int| 0 <= k < r.len() && r[k] == x;
                if k > 0 {
                    assert(s[k - 1] == x);
                }
            }
        }
    } else {
        let t = s.drop_first();
        lemma_insert_by_name_contains(t, e);
        assert forall|x: EntryView| #[trigger]
            insert_by_name(s, e).contains(x) <==> (s.contains(x) || x == e) by {
            let rt = insert_by_name(t, e);
            let r = seq![s[0]] + rt;
            assert(insert_by_name(s, e) == r);
            if s.contains(x) {
                let k = choose|k: int| 0 <= k < s.len() && s[k] == x;
                if k == 0 {
                    assert(r[0] == x);
                } else {
                    assert(t[k - 1] == x);
                    assert(rt.contains(x));
                    let m = choose|m: int| 0 <= m < rt.len() && rt[m] == x;
                    assert(r[m + 1] == x);
                }
            }
            if x == e {
                assert(rt.contains(x));
                let m = choose|m: int| 0 <= m < rt.len() && rt[m] == x;
                assert(r[m + 1] == x);
            }
            if r.contains(x) {
                let k = choose|k: int| 0 <= k < r.len() && r[k] == x;
                if k == 0 {
                    assert(s[0] == x);
                } else {
                    assert(rt[k - 1] == x);
                    assert(rt.contains(x));
                    if t.contains(x) {
                        let m = choose|m: int| 0 <= m < t.len() && t[m] == x;
                        assert(s[m + 1] == x);
                    }
                }
            }
        }
    }
}

proof fn lemma_sort_contains(s: Seq<EntryView>)
    ensures
        forall|x: EntryView| #[trigger] sort_by_name(s).contains(x) <==> s.contains(x),
    decreases s.len(),
{
    if s.len() > 0 {
        let t = s.drop_last();
        lemma_sort_contains(t);
        lemma_insert_by_name_contains(sort_by_name(t), s.last());
        assert forall|x: EntryView| #[trigger] sort_by_name(s).contains(x) <==> s.contains(x) by {
            if s.contains(x) {
                let k = choose|k: int| 0 <= k < s.len() && s[k] == x;
                if k < s.len() - 1 {
                    assert(t[k] == x);
                    assert(t.contains(x));
                }
            }
            if t.contains(x) {
                let k = choose|k: int| 0 <= k < t.len() && t[k] == x;
                assert(s[k] == x);
            }
        }
    }
}

/// TOON wins: when a directory holds a `.toon` ticket file (any case), the
/// ticket of that file's stem is read from a TOON file, whatever other
/// files share the stem.
pub proof fn law_toon_wins(entries: Seq<EntryView>, name: Seq<char>)
    requires
        entries.contains((name, false)),
        format_of_name(name) == Some(TicketFormat::Toon),
    ensures
        has_toon_group(group_all(sort_by_name(entries)).0, file_stem(name)),
{
    lemma_sort_contains(entries);
    let s = sort_by_name(entries);
    assert(s.contains((name, false)));
    let k = choose|k: int| 0 <= k < s.len() && s[k] == (name, false);
    lemma_group_all_toon(s, k);
}


/// No two groups share a key.
pub open spec fn keys_unique(groups: Seq<GroupView>) -> bool {
    forall|i: int, j: int|
        0 <= i < groups.len() && 0 <= j < groups.len() && i != j ==> #[trigger] groups[i].0
            != #[trigger] groups[j].0
}

/// Some group keyed `key` has a ticket file.
pub open spec fn has_file_group(groups: Seq<GroupView>, key: Seq<char>) -> bool {
    exists|i: int| 0 <= i < groups.len() && (#[trigger] groups[i]).0 == key && groups[i].1 is Some
}

/// Some group keyed `key` has the directory `key`.
pub open spec fn has_dir_group(groups: Seq<GroupView>, key: Seq<char>) -> bool {
    exists|i: int|
        0 <= i < groups.len() && (#[trigger] groups[i]).0 == key && groups[i].2 == Some(key)
}

/// A listing entry that is a ticket file.
pub open spec fn is_ticket_file(e: EntryView) -> bool {
    !e.1 && format_of_name(e.0) is Some
}

proof fn lemma_insert_group_unique(groups: Seq<GroupView>, g: GroupView)
    requires
        keys_unique(groups),
        forall|i: int| 0 <= i < groups.len() ==> groups[i].0 != g.0,
    ensures
        keys_unique(insert_group(groups, g)),
        insert_group(groups, g).len() == groups.len() + 1,
    decreases groups.len(),
{
    if groups.len() == 0 {
        assert(insert_group(groups, g) =~= seq![g]);
    } else if name_lt(g.0, groups[0].0) {
        let r = seq![g] + groups;
        assert forall|i: int, j: int|
            0 <= i < r.len() && 0 <= j < r.len() && i != j implies #[trigger] r[i].0
            != #[trigger] r[j].0 by {
            if i > 0 && j > 0 {
                assert(r[i] == groups[i - 1] && r[j] == groups[j - 1]);
            } else if i == 0 {
                assert(r[j] == groups[j - 1]);
            } else {
                assert(r[i] == groups[i - 1]);
            }
        }
    } else {
        let t = groups.drop_first();
        assert forall|i: int, j: int|
            0 <= i < t.len() && 0 <= j < t.len() && i != j implies #[trigger] t[i].0
            != #[trigger] t[j].0 by {
            assert(t[i] == groups[i + 1] && t[j] == groups[j + 1]);
        }
        assert forall|i: int| 0 <= i < t.len() implies t[i].0 != g.0 by {
            assert(t[i] == groups[i + 1]);
        }
        lemma_insert_group_unique(t, g);
        lemma_insert_group_contains(t, g);
        let rt = insert_group(t, g);
        let r = seq![groups[0]] + rt;
        assert(insert_group(groups, g) == r);
        assert forall|i: int, j: int|
            0 <= i < r.len() && 0 <= j < r.len() && i != j implies #[trigger] r[i].0
            != #[trigger] r[j].0 by {
            if i > 0 && j > 0 {
                assert(r[i] == rt[i - 1] && r[j] == rt[j - 1]);
            } else {
                let k = if i == 0 {
                    j
                } else {
                    i
                };
                let x = rt[k - 1];
                assert(rt.contains(x));
                if t.contains(x) {
                    let m = choose|m: int| 0 <= m < t.len() && t[m] == x;
                    assert(groups[m + 1] == x);
                    assert(groups[0].0 != groups[m + 1].0);
                } else {
                    assert(x == g);
                }
            }
        }
    }
}

proof fn lemma_insert_group_keeps(groups: Seq<GroupView>, g: GroupView, i: int)
    requires
        0 <= i < groups.len(),
    ensures
        exists|m: int| 0 <= m < insert_group(groups, g).len() && insert_group(groups, g)[m] == groups[i],
{
    lemma_insert_group_contains(groups, g);
    assert(groups.contains(groups[i]));
    assert(insert_group(groups, g).contains(groups[i]));
}

proof fn lemma_insert_group_has(groups: Seq<GroupView>, g: GroupView)
    ensures
        exists|m: int| 0 <= m < insert_group(groups, g).len() && insert_group(groups, g)[m] == g,
{
    lemma_insert_group_contains(groups, g);
    assert(insert_group(groups, g).contains(g));
}

/// Taking in an entry keeps group keys unique, keeps every group with a
/// ticket file or a child directory, and records a taken-in ticket file and
/// directory.
proof fn lemma_step_invariants(st: (Seq<GroupView>, Seq<ConflictView>), e: EntryView)
    requires
        keys_unique(st.0),
    ensures
        keys_unique(group_step(st, e).0),
        group_step(st, e).1.len() >= st.1.len(),
        forall|k: Seq<char>| has_file_group(st.0, k) ==> has_file_group(group_step(st, e).0, k),
        forall|k: Seq<char>| has_dir_group(st.0, k) ==> has_dir_group(group_step(st, e).0, k),
        is_ticket_file(e) ==> has_file_group(group_step(st, e).0, file_stem(e.0)),
        e.1 ==> has_dir_group(group_step(st, e).0, e.0),
        is_ticket_file(e) && has_file_group(st.0, file_stem(e.0)) ==> group_step(st, e).1.len()
            == st.1.len() + 1,
{
    let groups = st.0;
    let next = group_step(st, e).0;
    // which group (if any) the step updates in place
    if e.1 {
        match group_index(groups, e.0) {
            Some(i) => {
                lemma_group_index_some(groups, e.0);
                assert(next == groups.update(i, (groups[i].0, groups[i].1, Some(e.0))));
                assert forall|a: int, b: int|
                    0 <= a < next.len() && 0 <= b < next.len() && a != b implies #[trigger] next[a].0
                    != #[trigger] next[b].0 by {
                    assert(next[a].0 == groups[a].0 && next[b].0 == groups[b].0);
                }
                assert forall|k: Seq<char>| has_file_group(groups, k) implies has_file_group(
                    next,
                    k,
                ) by {
                    let w = choose|w: int|
                        0 <= w < groups.len() && (#[trigger] groups[w]).0 == k && groups[w].1 is Some;
                    assert(next[w].0 == k && next[w].1 is Some);
                }
                assert forall|k: Seq<char>| has_dir_group(groups, k) implies has_dir_group(
                    next,
                    k,
                ) by {
                    let w = choose|w: int|
                        0 <= w < groups.len() && (#[trigger] groups[w]).0 == k && groups[w].2 == Some(
                            k,
                        );
                    assert(next[w].0 == k && next[w].2 == Some(k));
                }
                assert(next[i].0 == e.0 && next[i].2 == Some(e.0));
            },
            None => {
                let g = (e.0, None::<(Seq<char>, TicketFormat)>, Some(e.0));
                assert forall|i: int| 0 <= i < groups.len() implies groups[i].0 != g.0 by {
                    if groups[i].0 == g.0 {
                        assert(exists|j: int| 0 <= j < groups.len() && #[trigger] groups[j].0 == e.0);
                    }
                }
                lemma_insert_group_unique(groups, g);
                assert forall|k: Seq<char>| has_file_group(groups, k) implies has_file_group(
                    next,
                    k,
                ) by {
                    let w = choose|w: int|
                        0 <= w < groups.len() && (#[trigger] groups[w]).0 == k && groups[w].1 is Some;
                    lemma_insert_group_keeps(groups, g, w);
                    let m = choose|m: int| 0 <= m < next.len() && next[m] == groups[w];
                    assert(next[m].0 == k);
                }
                assert forall|k: Seq<char>| has_dir_group(groups, k) implies has_dir_group(
                    next,
                    k,
                ) by {
                    let w = choose|w: int|
                        0 <= w < groups.len() && (#[trigger] groups[w]).0 == k && groups[w].2 == Some(
                            k,
                        );
                    lemma_insert_group_keeps(groups, g, w);
                    let m = choose|m: int| 0 <= m < next.len() && next[m] == groups[w];
                    assert(next[m].0 == k);
                }
                lemma_insert_group_has(groups, g);
                let m = choose|m: int| 0 <= m < next.len() && next[m] == g;
                assert(next[m].0 == e.0);
            },
        }
    } else {
        match format_of_name(e.0) {
            None => {},
            Some(f) => {
                let stem = file_stem(e.0);
                match group_index(groups, stem) {
                    None => {
                        let g = (stem, Some((e.0, f)), None::<Seq<char>>);
                        assert forall|i: int| 0 <= i < groups.len() implies groups[i].0 != g.0 by {
                            if groups[i].0 == g.0 {
                                assert(exists|j: int|
                                    0 <= j < groups.len() && #[trigger] groups[j].0 == stem);
                            }
                        }
                        lemma_insert_group_unique(groups, g);
                        assert forall|k: Seq<char>| has_file_group(groups, k) implies has_file_group(
                            next,
                            k,
                        ) by {
                            let w = choose|w: int|
                                0 <= w < groups.len() && (#[trigger] groups[w]).0 == k
                                    && groups[w].1 is Some;
                            lemma_insert_group_keeps(groups, g, w);
                            let m = choose|m: int| 0 <= m < next.len() && next[m] == groups[w];
                            assert(next[m].0 == k);
                        }
                        assert forall|k: Seq<char>| has_dir_group(groups, k) implies has_dir_group(
                            next,
                            k,
                        ) by {
                            let w = choose|w: int|
                                0 <= w < groups.len() && (#[trigger] groups[w]).0 == k
                                    && groups[w].2 == Some(k);
                            lemma_insert_group_keeps(groups, g, w);
                            let m = choose|m: int| 0 <= m < next.len() && next[m] == groups[w];
                            assert(next[m].0 == k);
                        }
                        lemma_insert_group_has(groups, g);
                        let m = choose|m: int| 0 <= m < next.len() && next[m] == g;
                        assert(next[m].0 == stem);
                        assert(!has_file_group(groups, stem)) by {
                            if has_file_group(groups, stem) {
                                let w = choose|w: int|
                                    0 <= w < groups.len() && (#[trigger] groups[w]).0 == stem
                                        && groups[w].1 is Some;
                                assert(exists|j: int|
                                    0 <= j < groups.len() && #[trigger] groups[j].0 == stem);
                            }
                        }
                    },
                    Some(i) => {
                        lemma_group_index_some(groups, stem);
                        assert(next.len() == groups.len());
                        assert forall|a: int| 0 <= a < next.len() implies next[a].0 == groups[a].0
                            && (groups[a].1 is Some ==> next[a].1 is Some) && next[a].2
                            == groups[a].2 by {}
                        assert forall|a: int, b: int|
                            0 <= a < next.len() && 0 <= b < next.len() && a != b implies #[trigger] next[a].0
                            != #[trigger] next[b].0 by {
                            assert(next[a].0 == groups[a].0 && next[b].0 == groups[b].0);
                        }
                        assert forall|k: Seq<char>| has_file_group(groups, k) implies has_file_group(
                            next,
                            k,
                        ) by {
                            let w = choose|w: int|
                                0 <= w < groups.len() && (#[trigger] groups[w]).0 == k
                                    && groups[w].1 is Some;
                            assert(next[w].0 == k && next[w].1 is Some);
                        }
                        assert forall|k: Seq<char>| has_dir_group(groups, k) implies has_dir_group(
                            next,
                            k,
                        ) by {
                            let w = choose|w: int|
                                0 <= w < groups.len() && (#[trigger] groups[w]).0 == k
                                    && groups[w].2 == Some(k);
                            assert(next[w].0 == k && next[w].2 == Some(k));
                        }
                        assert(next[i].0 == stem && next[i].1 is Some);
                        if has_file_group(groups, stem) {
                            let w = choose|w: int|
                                0 <= w < groups.len() && (#[trigger] groups[w]).0 == stem
                                    && groups[w].1 is Some;
                            assert(w == i);
                        }
                    },
                }
            },
        }
    }
}

/// What holds of the groups of any listing taken in in order.
proof fn lemma_group_all_invariants(s: Seq<EntryView>)
    ensures
        keys_unique(group_all(s).0),
        forall|k: int|
            0 <= k < s.len() && is_ticket_file(#[trigger] s[k]) ==> has_file_group(
                group_all(s).0,
                file_stem(s[k].0),
            ),
        forall|k: int|
            0 <= k < s.len() && (#[trigger] s[k]).1 ==> has_dir_group(group_all(s).0, s[k].0),
    decreases s.len(),
{
    if s.len() > 0 {
        let t = s.drop_last();
        lemma_group_all_invariants(t);
        lemma_step_invariants(group_all(t), s.last());
        assert forall|k: int|
            0 <= k < s.len() && is_ticket_file(#[trigger] s[k]) implies has_file_group(
            group_all(s).0,
            file_stem(s[k].0),
        ) by {
            if k < s.len() - 1 {
                assert(t[k] == s[k]);
            }
        }
        assert forall|k: int| 0 <= k < s.len() && (#[trigger] s[k]).1 implies has_dir_group(
            group_all(s).0,
            s[k].0,
        ) by {
            if k < s.len() - 1 {
                assert(t[k] == s[k]);
            }
        }
    }
}

/// Conflicts are only ever added; a second ticket file for a stem adds one.
proof fn lemma_conflict_reported(s: Seq<EntryView>, a: int, b: int)
    requires
        0 <= a < b < s.len(),
        is_ticket_file(s[a]),
        is_ticket_file(s[b]),
        file_stem(s[a].0) == file_stem(s[b].0),
    ensures
        group_all(s).1.len() > 0,
    decreases s.len(),
{
    let t = s.drop_last();
    lemma_group_all_invariants(t);
    lemma_step_invariants(group_all(t), s.last());
    if b < s.len() - 1 {
        assert(t[a] == s[a] && t[b] == s[b]);
        lemma_conflict_reported(t, a, b);
    } else {
        assert(t[a] == s[a]);
        assert(has_file_group(group_all(t).0, file_stem(s[a].0)));
    }
}

/// The ticket name an entry contributes: a directory its own name, a ticket
/// file its stem, any other file none.
pub open spec fn entry_key(e: EntryView) -> Option<Seq<char>> {
    if e.1 {
        Some(e.0)
    } else if format_of_name(e.0) is Some {
        Some(file_stem(e.0))
    } else {
        None
    }
}

/// Some entry of the listing contributes the ticket name `k`.
pub open spec fn is_listed_key(s: Seq<EntryView>, k: Seq<char>) -> bool {
    exists|j: int| 0 <= j < s.len() && #[trigger] entry_key(s[j]) == Some(k)
}

/// Some group is keyed `k`.
pub open spec fn has_group(groups: Seq<GroupView>, k: Seq<char>) -> bool {
    exists|i: int| 0 <= i < groups.len() && #[trigger] groups[i].0 == k
}

proof fn lemma_listed_in_longer(t: Seq<EntryView>, s: Seq<EntryView>, k: Seq<char>)
    requires
        t.len() <= s.len(),
        forall|j: int| 0 <= j < t.len() ==> t[j] == s[j],
        is_listed_key(t, k),
    ensures
        is_listed_key(s, k),
{
    let j = choose|j: int| 0 <= j < t.len() && #[trigger] entry_key(t[j]) == Some(k);
    assert(entry_key(s[j]) == Some(k));
}

/// Every group key is the name some entry contributes.
proof fn lemma_group_keys_listed(s: Seq<EntryView>)
    ensures
        forall|i: int|
            0 <= i < group_all(s).0.len() ==> is_listed_key(s, #[trigger] group_all(s).0[i].0),
    decreases s.len(),
{
    if s.len() > 0 {
        let t = s.drop_last();
        lemma_group_keys_listed(t);
        let st = group_all(t);
        let g0 = st.0;
        let e = s.last();
        let g1 = group_all(s).0;
        assert(group_all(s) == group_step(st, e));
        assert(is_listed_key(s, e.0) || !e.1) by {
            if e.1 {
                assert(entry_key(s[s.len() - 1]) == Some(e.0));
            }
        }
        assert(format_of_name(e.0) is Some && !e.1 ==> is_listed_key(s, file_stem(e.0))) by {
            if format_of_name(e.0) is Some && !e.1 {
                assert(entry_key(s[s.len() - 1]) == Some(file_stem(e.0)));
            }
        }
        assert forall|i: int| 0 <= i < g1.len() implies is_listed_key(s, #[trigger] g1[i].0) by {
            let k = g1[i].0;
            let stem = file_stem(e.0);
            let inserted: Option<GroupView> = if e.1 {
                match group_index(g0, e.0) {
                    Some(_) => None,
                    None => Some((e.0, None, Some(e.0))),
                }
            } else {
                match format_of_name(e.0) {
                    None => None,
                    Some(f) => match group_index(g0, stem) {
                        None => Some((stem, Some((e.0, f)), None)),
                        Some(_) => None,
                    },
                }
            };
            match inserted {
                Some(g) => {
                    assert(g1 == insert_group(g0, g));
                    lemma_insert_group_contains(g0, g);
                    assert(g1.contains(g1[i]));
                    if g0.contains(g1[i]) {
                        let m = choose|m: int| 0 <= m < g0.len() && g0[m] == g1[i];
                        assert(is_listed_key(t, g0[m].0));
                        lemma_listed_in_longer(t, s, k);
                    }
                },
                None => {
                    if group_index(g0, e.0) is Some {
                        lemma_group_index_some(g0, e.0);
                    }
                    if group_index(g0, stem) is Some {
                        lemma_group_index_some(g0, stem);
                    }
                    assert(g1.len() == g0.len());
                    assert(g1[i].0 == g0[i].0);
                    assert(is_listed_key(t, g0[i].0));
                    lemma_listed_in_longer(t, s, k);
                },
            }
        }
    }
}

/// A group's child directory, if any, is the listed directory of its own
/// name.
pub open spec fn dir_listed(g: GroupView, s: Seq<EntryView>) -> bool {
    g.2 is Some ==> g.2 == Some(g.0) && s.contains((g.0, true))
}

proof fn lemma_group_dirs_listed(s: Seq<EntryView>)
    ensures
        forall|i: int|
            0 <= i < group_all(s).0.len() ==> dir_listed(#[trigger] group_all(s).0[i], s),
    decreases s.len(),
{
    if s.len() > 0 {
        let t = s.drop_last();
        lemma_group_dirs_listed(t);
        let st = group_all(t);
        let g0 = st.0;
        let e = s.last();
        let g1 = group_all(s).0;
        assert(group_all(s) == group_step(st, e));
        assert(s.contains(e)) by {
            assert(s[s.len() - 1] == e);
        }
        assert forall|x: GroupView| #[trigger] dir_listed(x, t) implies dir_listed(x, s) by {
            if x.2 is Some {
                let m = choose|m: int| 0 <= m < t.len() && t[m] == (x.0, true);
                assert(s[m] == t[m]);
            }
        }
        let stem = file_stem(e.0);
        assert forall|i: int| 0 <= i < g1.len() implies dir_listed(#[trigger] g1[i], s) by {
            let inserted: Option<GroupView> = if e.1 {
                match group_index(g0, e.0) {
                    Some(_) => None,
                    None => Some((e.0, None, Some(e.0))),
                }
            } else {
                match format_of_name(e.0) {
                    None => None,
                    Some(f) => match group_index(g0, stem) {
                        None => Some((stem, Some((e.0, f)), None)),
                        Some(_) => None,
                    },
                }
            };
            match inserted {
                Some(g) => {
                    assert(g1 == insert_group(g0, g));
                    lemma_insert_group_contains(g0, g);
                    assert(g1.contains(g1[i]));
                    if g0.contains(g1[i]) {
                        let m = choose|m: int| 0 <= m < g0.len() && g0[m] == g1[i];
                        assert(dir_listed(g0[m], t));
                    }
                },
                None => {
                    if e.1 && group_index(g0, e.0) is Some {
                        lemma_group_index_some(g0, e.0);
                        let idx = group_index(g0, e.0)->0;
                        if i != idx {
                            assert(g1[i] == g0[i]);
                            assert(dir_listed(g0[i], t));
                        }
                    } else {
                        if group_index(g0, stem) is Some {
                            lemma_group_index_some(g0, stem);
                        }
                        assert(g1.len() == g0.len());
                        assert(g1[i].0 == g0[i].0 && g1[i].2 == g0[i].2);
                        assert(dir_listed(g0[i], t));
                    }
                },
            }
        }
    }
}

/// Subtickets come from the directory of the ticket's own name: a ticket
/// has a child directory exactly when the listing has a subdirectory named
/// like it, and then that subdirectory is its child directory.
pub proof fn law_child_directory(entries: Seq<EntryView>)
    ensures
        ({
            let groups = group_all(sort_by_name(entries)).0;
            forall|i: int|
                0 <= i < groups.len() ==> {
                    &&& (#[trigger] groups[i]).2 is Some <==> entries.contains((groups[i].0, true))
                    &&& groups[i].2 is Some ==> groups[i].2 == Some(groups[i].0)
                }
        }),
{
    lemma_sort_contains(entries);
    let s = sort_by_name(entries);
    lemma_group_all_invariants(s);
    lemma_group_dirs_listed(s);
    let groups = group_all(s).0;
    assert forall|i: int| 0 <= i < groups.len() implies {
        &&& (#[trigger] groups[i]).2 is Some <==> entries.contains((groups[i].0, true))
        &&& groups[i].2 is Some ==> groups[i].2 == Some(groups[i].0)
    } by {
        assert(dir_listed(groups[i], s));
        let k = groups[i].0;
        if entries.contains((k, true)) {
            assert(s.contains((k, true)));
            let m = choose|m: int| 0 <= m < s.len() && s[m] == (k, true);
            assert(s[m].1);
            assert(has_dir_group(groups, s[m].0));
            let j = choose|j: int|
                0 <= j < groups.len() && (#[trigger] groups[j]).0 == k && groups[j].2 == Some(k);
            assert(i == j);
        }
    }
}

/// Group keys strictly ascend.
pub open spec fn keys_sorted(groups: Seq<GroupView>) -> bool {
    forall|i: int, j: int|
        0 <= i < j < groups.len() ==> name_lt(#[trigger] groups[i].0, #[trigger] groups[j].0)
}

proof fn lemma_name_lt_trans(a: Seq<char>, b: Seq<char>, c: Seq<char>)
    requires
        name_lt(a, b),
        name_lt(b, c),
    ensures
        name_lt(a, c),
    decreases a.len(),
{
    if a.len() > 0 && b.len() > 0 && c.len() > 0 && a[0] == b[0] && b[0] == c[0] {
        lemma_name_lt_trans(a.drop_first(), b.drop_first(), c.drop_first());
    }
}

proof fn lemma_insert_group_sorted(groups: Seq<GroupView>, g: GroupView)
    requires
        keys_sorted(groups),
        forall|i: int| 0 <= i < groups.len() ==> groups[i].0 != g.0,
    ensures
        keys_sorted(insert_group(groups, g)),
    decreases groups.len(),
{
    if groups.len() == 0 {
    } else if name_lt(g.0, groups[0].0) {
        let r = seq![g] + groups;
        assert(insert_group(groups, g) == r);
        assert forall|i: int, j: int| 0 <= i < j < r.len() implies name_lt(
            #[trigger] r[i].0,
            #[trigger] r[j].0,
        ) by {
            if i == 0 {
                if j > 1 {
                    assert(name_lt(groups[0].0, groups[j - 1].0));
                    lemma_name_lt_trans(g.0, groups[0].0, groups[j - 1].0);
                }
            } else {
                assert(name_lt(groups[i - 1].0, groups[j - 1].0));
            }
        }
    } else {
        let t = groups.drop_first();
        assert(keys_sorted(t)) by {
            assert forall|i: int, j: int| 0 <= i < j < t.len() implies name_lt(
                #[trigger] t[i].0,
                #[trigger] t[j].0,
            ) by {
                assert(name_lt(groups[i + 1].0, groups[j + 1].0));
            }
        }
        lemma_insert_group_sorted(t, g);
        lemma_insert_group_contains(t, g);
        if !name_lt(groups[0].0, g.0) {
            lemma_name_lt_total(groups[0].0, g.0);
        }
        let rt = insert_group(t, g);
        let r = seq![groups[0]] + rt;
        assert(insert_group(groups, g) == r);
        assert forall|i: int, j: int| 0 <= i < j < r.len() implies name_lt(
            #[trigger] r[i].0,
            #[trigger] r[j].0,
        ) by {
            if i == 0 {
                assert(rt.contains(rt[j - 1]));
                if rt[j - 1] != g {
                    assert(t.contains(rt[j - 1]));
                    let m = choose|m: int| 0 <= m < t.len() && t[m] == rt[j - 1];
                    assert(name_lt(groups[0].0, groups[m + 1].0));
                }
            } else {
                assert(name_lt(rt[i - 1].0, rt[j - 1].0));
            }
        }
    }
}

/// Taking in an entry keeps group keys strictly ascending.
proof fn lemma_step_sorted(st: (Seq<GroupView>, Seq<ConflictView>), e: EntryView)
    requires
        keys_sorted(st.0),
    ensures
        keys_sorted(group_step(st, e).0),
{
    let g0 = st.0;
    let g1 = group_step(st, e).0;
    let stem = file_stem(e.0);
    if e.1 {
        match group_index(g0, e.0) {
            Some(_) => {
                lemma_group_index_some(g0, e.0);
                assert forall|i: int, j: int| 0 <= i < j < g1.len() implies name_lt(
                    #[trigger] g1[i].0,
                    #[trigger] g1[j].0,
                ) by {
                    assert(g1[i].0 == g0[i].0 && g1[j].0 == g0[j].0);
                }
            },
            None => {
                lemma_insert_group_sorted(g0, (e.0, None, Some(e.0)));
            },
        }
    } else {
        match format_of_name(e.0) {
            None => {},
            Some(f) => match group_index(g0, stem) {
                None => {
                    lemma_insert_group_sorted(g0, (stem, Some((e.0, f)), None));
                },
                Some(_) => {
                    lemma_group_index_some(g0, stem);
                    assert forall|i: int, j: int| 0 <= i < j < g1.len() implies name_lt(
                        #[trigger] g1[i].0,
                        #[trigger] g1[j].0,
                    ) by {
                        assert(g1[i].0 == g0[i].0 && g1[j].0 == g0[j].0);
                    }
                },
            },
        }
    }
}

proof fn lemma_group_all_sorted(s: Seq<EntryView>)
    ensures
        keys_sorted(group_all(s).0),
    decreases s.len(),
{
    if s.len() > 0 {
        lemma_group_all_sorted(s.drop_last());
        lemma_step_sorted(group_all(s.drop_last()), s.last());
    }
}

/// The tickets of a directory are exactly the names its entries
/// contribute: every subdirectory's name and every ticket file's stem, one
/// ticket per name, in ascending name order; other entries give none.
pub proof fn law_ticket_keys(entries: Seq<EntryView>, k: Seq<char>)
    ensures
        keys_unique(group_all(sort_by_name(entries)).0),
        keys_sorted(group_all(sort_by_name(entries)).0),
        has_group(group_all(sort_by_name(entries)).0, k) <==> is_listed_key(entries, k),
{
    lemma_sort_contains(entries);
    let s = sort_by_name(entries);
    lemma_group_all_sorted(s);
    lemma_group_all_invariants(s);
    lemma_group_keys_listed(s);
    let groups = group_all(s).0;
    if has_group(groups, k) {
        let i = choose|i: int| 0 <= i < groups.len() && #[trigger] groups[i].0 == k;
        assert(is_listed_key(s, groups[i].0));
        let j = choose|j: int| 0 <= j < s.len() && #[trigger] entry_key(s[j]) == Some(k);
        assert(s.contains(s[j]));
        assert(entries.contains(s[j]));
        let m = choose|m: int| 0 <= m < entries.len() && entries[m] == s[j];
        assert(entry_key(entries[m]) == Some(k));
    }
    if is_listed_key(entries, k) {
        let m = choose|m: int| 0 <= m < entries.len() && #[trigger] entry_key(entries[m]) == Some(k);
        assert(entries.contains(entries[m]));
        assert(s.contains(entries[m]));
        let j = choose|j: int| 0 <= j < s.len() && s[j] == entries[m];
        if s[j].1 {
            assert(has_dir_group(groups, s[j].0));
        } else {
            assert(is_ticket_file(s[j]));
            assert(has_file_group(groups, file_stem(s[j].0)));
        }
    }
}

/// Subtickets by colocation: a ticket file and a directory named after its
/// stem make one ticket, read from the file, with the directory's tickets
/// as children.
pub proof fn law_file_and_directory_merge(entries: Seq<EntryView>, file: Seq<char>)
    requires
        entries.contains((file, false)),
        format_of_name(file) is Some,
        entries.contains((file_stem(file), true)),
    ensures
        ({
            let groups = group_all(sort_by_name(entries)).0;
            exists|i: int|
                0 <= i < groups.len() && #[trigger] groups[i].0 == file_stem(file) && groups[i].1
                    is Some && groups[i].2 == Some(file_stem(file))
        }),
{
    lemma_sort_contains(entries);
    let s = sort_by_name(entries);
    let key = file_stem(file);
    assert(s.contains((file, false)));
    assert(s.contains((key, true)));
    let a = choose|k: int| 0 <= k < s.len() && s[k] == (file, false);
    let b = choose|k: int| 0 <= k < s.len() && s[k] == (key, true);
    lemma_group_all_invariants(s);
    let groups = group_all(s).0;
    assert(is_ticket_file(s[a]));
    assert(has_file_group(groups, key));
    assert(has_dir_group(groups, key));
    let i = choose|i: int| 0 <= i < groups.len() && (#[trigger] groups[i]).0 == key && groups[i].1 is Some;
    let j = choose|j: int| 0 <= j < groups.len() && (#[trigger] groups[j]).0 == key && groups[j].2 == Some(key);
    assert(i == j);
}

/// Two ticket files with one stem (`foo.toon` and `foo.json`) are always
/// reported as a conflict.
pub proof fn law_shared_stem_reported(entries: Seq<EntryView>, a: Seq<char>, b: Seq<char>)
    requires
        a != b,
        entries.contains((a, false)),
        entries.contains((b, false)),
        format_of_name(a) is Some,
        format_of_name(b) is Some,
        file_stem(a) == file_stem(b),
    ensures
        group_all(sort_by_name(entries)).1.len() > 0,
{
    lemma_sort_contains(entries);
    let s = sort_by_name(entries);
    assert(s.contains((a, false)));
    assert(s.contains((b, false)));
    let i = choose|k: int| 0 <= k < s.len() && s[k] == (a, false);
    let j = choose|k: int| 0 <= k < s.len() && s[k] == (b, false);
    assert(i != j);
    if i < j {
        lemma_conflict_reported(s, i, j);
    } else {
        lemma_conflict_reported(s, j, i);
    }
}

} // verus!
