//! The shared objects that a process has mapped, read from the lines of its
//! memory map.
//!
//! A line of the map holds, separated by white space: address range,
//! permissions, offset, device, inode, and the path of the mapped file where
//! there is one.

use crate::text::{chars_of, contains_text, ends_with, has_suffix, occurs_in};
use vstd::prelude::*;

verus! {

/// A shared object mapped into a process.
#[derive(Clone, Debug, PartialEq, Eq)]
pub struct ModuleInfo {
    /// The file name of the object, or `Unknown`.
    pub name: String,
    pub path: String,
}

/// White space as Unicode defines it.
pub open spec fn is_space(c: char) -> bool {
    let code = c as u32;
    ||| 0x09 <= code <= 0x0D
    ||| code == 0x20
    ||| code == 0x85
    ||| code == 0xA0
    ||| code == 0x1680
    ||| 0x2000 <= code <= 0x200A
    ||| code == 0x2028
    ||| code == 0x2029
    ||| code == 0x202F
    ||| code == 0x205F
    ||| code == 0x3000
}

/// Decides [`is_space`].
pub fn is_white_space(c: char) -> (space: bool)
    ensures
        space == is_space(c),
{
    let code = c as u32;
    (0x09 <= code && code <= 0x0D) || code == 0x20 || code == 0x85 || code == 0xA0 || code
        == 0x1680 || (0x2000 <= code && code <= 0x200A) || code == 0x2028 || code == 0x2029
        || code == 0x202F || code == 0x205F || code == 0x3000
}

/// The first position at or after `from` that holds no white space, or the
/// end of the line.
pub open spec fn field_start(line: Seq<char>, from: int) -> int
    decreases line.len() - from,
{
    if from >= line.len() {
        line.len() as int
    } else if !is_space(line[from]) {
        from
    } else {
        field_start(line, from + 1)
    }
}

/// The first position at or after `from` that holds white space, or the end
/// of the line.
pub open spec fn field_stop(line: Seq<char>, from: int) -> int
    decreases line.len() - from,
{
    if from >= line.len() {
        line.len() as int
    } else if is_space(line[from]) {
        from
    } else {
        field_stop(line, from + 1)
    }
}

/// The span of the field that stands `skip` fields behind position `from`,
/// where fields are the longest runs without white space; `None` where the
/// line has too few fields.
pub open spec fn field_span(line: Seq<char>, from: int, skip: nat) -> Option<(int, int)>
    decreases skip,
{
    let start = field_start(line, from);
    if start >= line.len() {
        None
    } else if skip == 0 {
        Some((start, field_stop(line, start)))
    } else {
        field_span(line, field_stop(line, start), (skip - 1) as nat)
    }
}

/// Field starts and stops lie in the line, in this order.
pub proof fn lemma_field_bounds(line: Seq<char>, from: int)
    requires
        0 <= from <= line.len(),
    ensures
        from <= field_start(line, from) <= line.len(),
        from <= field_stop(line, from) <= line.len(),
        from < line.len() && !is_space(line[from]) ==> from < field_stop(line, from),
    decreases line.len() - from,
{
    if from < line.len() {
        lemma_field_bounds(line, from + 1);
    }
}

/// Finds the span of field number `index` of the line, counted from 0.
pub fn find_field(line: &Vec<char>, index: usize) -> (span: Option<(usize, usize)>)
    ensures
        match span {
            Some(found) => field_span(line@, 0, index as nat) == Some(
                (found.0 as int, found.1 as int),
            ) && found.0 < found.1 <= line@.len(),
            None => field_span(line@, 0, index as nat) is None,
        },
{
    let mut at: usize = 0;
    let mut left: usize = index;
    loop
        invariant
            at <= line@.len(),
            left <= index,
            field_span(line@, 0, index as nat) == field_span(line@, at as int, left as nat),
        decreases left,
    {
        let ghost from = at;
        while at < line.len() && is_white_space(line[at])
            invariant
                from <= at <= line@.len(),
                field_start(line@, at as int) == field_start(line@, from as int),
            decreases line@.len() - at,
        {
            at += 1;
        }
        if at >= line.len() {
            return None;
        }
        let start = at;
        while at < line.len() && !is_white_space(line[at])
            invariant
                start <= at <= line@.len(),
                start < line@.len(),
                !is_space(line@[start as int]),
                field_stop(line@, at as int) == field_stop(line@, start as int),
                at == start ==> !is_space(line@[at as int]),
            decreases line@.len() - at,
        {
            at += 1;
        }
        proof {
            lemma_field_bounds(line@, start as int);
        }
        if left == 0 {
            return Some((start, at));
        }
        left -= 1;
    }
}

/// The path that a line of the map names, if it is that of a shared object:
/// the sixth field, where it ends with `.so` or contains `.so.`.
pub open spec fn object_path(line: Seq<char>) -> Option<Seq<char>> {
    match field_span(line, 0, 5) {
        None => None,
        Some(span) => {
            let path = line.subrange(span.0, span.1);
            if ends_with(path, ".so"@) || occurs_in(path, ".so."@) {
                Some(path)
            } else {
                None
            }
        },
    }
}

/// Reads the path of a shared object off a line of the map.
pub fn shared_object_path(line: &str) -> (path: Option<String>)
    ensures
        match path {
            Some(found) => object_path(line@) == Some(found@),
            None => object_path(line@) is None,
        },
{
    let chars = chars_of(line);
    match find_field(&chars, 5) {
        None => None,
        Some((from, to)) => {
            let found = line.substring_char(from, to);
            let path = chars_of(found);
            let suffix = chars_of(".so");
            let infix = chars_of(".so.");
            if has_suffix(&path, &suffix) || contains_text(&path, &infix) {
                Some(String::from_str(found))
            } else {
                None
            }
        },
    }
}

/// The paths of the shared objects that the lines name, each once, in the
/// order in which they first occur.
pub open spec fn object_paths(lines: Seq<Seq<char>>) -> Seq<Seq<char>>
    decreases lines.len(),
{
    if lines.len() == 0 {
        Seq::empty()
    } else {
        let before = object_paths(lines.drop_last());
        match object_path(lines.last()) {
            Some(path) if !before.contains(path) => before.push(path),
            _ => before,
        }
    }
}

/// The lines as texts.
pub open spec fn texts(lines: Seq<String>) -> Seq<Seq<char>> {
    lines.map_values(|line: String| line@)
}

/// Whether one of `paths` is `path`.
fn lists_path(paths: &Vec<String>, path: &String) -> (found: bool)
    ensures
        found == texts(paths@).contains(path@),
{
    let mut k: usize = 0;
    while k < paths.len()
        invariant
            k <= paths@.len(),
            forall|j: int| 0 <= j < k ==> texts(paths@)[j] != path@,
        decreases paths@.len() - k,
    {
        if paths[k] == *path {
            assert(texts(paths@)[k as int] == path@);
            return true;
        }
        k += 1;
    }
    false
}

/// Collects the paths of the shared objects that the lines of a memory map
/// name, each once, in the order in which they first occur.
pub fn shared_object_paths(lines: &Vec<String>) -> (paths: Vec<String>)
    ensures
        texts(paths@) == object_paths(texts(lines@)),
{
    let mut paths: Vec<String> = Vec::new();
    let mut k: usize = 0;
    assert(texts(lines@).take(0) =~= Seq::<Seq<char>>::empty());
    assert(texts(paths@) =~= Seq::<Seq<char>>::empty());
    while k < lines.len()
        invariant
            k <= lines@.len(),
            texts(paths@) == object_paths(texts(lines@).take(k as int)),
        decreases lines@.len() - k,
    {
        proof {
            assert(texts(lines@).take(k + 1).drop_last() =~= texts(lines@).take(k as int));
            assert(texts(lines@).take(k + 1).last() == lines@[k as int]@);
        }
        let ghost before = texts(paths@);
        match shared_object_path(lines[k].as_str()) {
            Some(path) => {
                if !lists_path(&paths, &path) {
                    paths.push(path);
                    assert(texts(paths@) =~= before.push(path@));
                }
            },
            None => {},
        }
        k += 1;
    }
    assert(texts(lines@).take(k as int) =~= texts(lines@));
    paths
}

/// The final component of a path as `std::path::Path::file_name` gives it,
/// read as text; `None` where the path has none. A path is taken apart by the
/// rules of the platform that the program is built for.
pub uninterp spec fn file_name_of(path: Seq<char>) -> Option<Seq<char>>;

/// `std::path::Path::file_name`, with the name turned into a `String`: the
/// result is the named final component of `path` and depends on nothing else.
#[verifier::external_body]
fn file_name(path: &str) -> (name: Option<String>)
    ensures
        match name {
            Some(found) => file_name_of(path@) == Some(found@),
            None => file_name_of(path@) is None,
        },
{
    match std::path::Path::new(path).file_name() {
        Some(name) => Some(name.to_string_lossy().into_owned()),
        None => None,
    }
}

/// The module at `path`, under the file name found for it, or under
/// `Unknown` where none was found.
pub fn module_of(path: String, file_name: Option<String>) -> (module: ModuleInfo)
    ensures
        module.path@ == path@,
        module.name@ == match file_name {
            Some(name) => name@,
            None => "Unknown"@,
        },
{
    let name = match file_name {
        Some(name) => name,
        None => String::from_str("Unknown"),
    };
    ModuleInfo { name, path }
}

/// The name under which the module at `path` is listed.
pub open spec fn module_name(path: Seq<char>) -> Seq<char> {
    match file_name_of(path) {
        Some(name) => name,
        None => "Unknown"@,
    }
}

/// Lists the shared objects that the lines of a memory map name, each once,
/// in the order in which they first occur.
pub fn list_modules(lines: &Vec<String>) -> (modules: Vec<ModuleInfo>)
    ensures
        modules@.len() == object_paths(texts(lines@)).len(),
        forall|k: int|
            0 <= k < modules@.len() ==> (#[trigger] modules@[k]).path@ == object_paths(
                texts(lines@),
            )[k] && modules@[k].name@ == module_name(modules@[k].path@),
{
    let paths = shared_object_paths(lines);
    let mut modules: Vec<ModuleInfo> = Vec::new();
    let mut k: usize = 0;
    while k < paths.len()
        invariant
            k <= paths@.len(),
            modules@.len() == k,
            texts(paths@) == object_paths(texts(lines@)),
            forall|j: int|
                0 <= j < k ==> (#[trigger] modules@[j]).path@ == texts(paths@)[j]
                    && modules@[j].name@ == module_name(modules@[j].path@),
        decreases paths@.len() - k,
    {
        let path = paths[k].clone();
        let name = file_name(path.as_str());
        assert(texts(paths@)[k as int] == path@);
        modules.push(module_of(path, name));
        k += 1;
    }
    modules
}

} // verus!
