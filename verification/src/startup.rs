//! Programs started on login: reading and rewriting desktop entries, and
//! merging the switched-on and switched-off entries of a registry.

use crate::models::StartupApp;
use crate::text::{
    chars_of, contains_text, line_spans, lines_of, matches_at, occurs_in, reads_at, split_lines,
};
use vstd::prelude::*;

verus! {

/// Whether `line` begins with `key`.
pub open spec fn begins_with(line: Seq<char>, key: Seq<char>) -> bool {
    reads_at(line, 0, key)
}

/// What follows `key` on the last of `lines` that begins with `key`.
pub open spec fn value_of(lines: Seq<Seq<char>>, key: Seq<char>) -> Option<Seq<char>>
    decreases lines.len(),
{
    if lines.len() == 0 {
        None
    } else if begins_with(lines.last(), key) {
        Some(lines.last().skip(key.len() as int))
    } else {
        value_of(lines.drop_last(), key)
    }
}

/// What a desktop entry says of a startup program: its name, its command
/// line, and whether it is switched on. An entry without a name or without a
/// command line says nothing; an entry is switched off by `Hidden=true`.
pub open spec fn desktop_entry(text: Seq<char>) -> Option<(Seq<char>, Seq<char>, bool)> {
    let lines = lines_of(text);
    match (value_of(lines, "Name="@), value_of(lines, "Exec="@)) {
        (Some(name), Some(exec)) => Some(
            (name, exec, value_of(lines, "Hidden="@) != Some("true"@)),
        ),
        _ => None,
    }
}

/// Whether the line of `text` between `from` and `to` begins with `key`.
fn line_begins(text: &Vec<char>, from: usize, to: usize, key: &Vec<char>) -> (found: bool)
    requires
        from <= to <= text@.len(),
    ensures
        found == begins_with(text@.subrange(from as int, to as int), key@),
{
    let found = key.len() <= to - from && matches_at(text, from, key);
    proof {
        let line = text@.subrange(from as int, to as int);
        if key@.len() <= to - from {
            assert(line.subrange(0, key@.len() as int) =~= text@.subrange(
                from as int,
                from + key@.len(),
            ));
        }
    }
    found
}

/// The first `count` lines of `text`.
spec fn first_lines(text: Seq<char>, count: int) -> Seq<Seq<char>> {
    lines_of(text).take(count)
}

/// Taking one more line into account.
proof fn lemma_value_step(text: Seq<char>, count: int, key: Seq<char>)
    requires
        0 <= count < lines_of(text).len(),
    ensures
        value_of(first_lines(text, count + 1), key) == if begins_with(lines_of(text)[count], key) {
            Some(lines_of(text)[count].skip(key.len() as int))
        } else {
            value_of(first_lines(text, count), key)
        },
{
    assert(first_lines(text, count + 1).drop_last() =~= first_lines(text, count));
    assert(first_lines(text, count + 1).last() == lines_of(text)[count]);
}

/// Reads a desktop entry.
pub fn parse_desktop_entry(content: &str) -> (app: Option<StartupApp>)
    ensures
        match app {
            Some(found) => desktop_entry(content@) == Some(
                (found.name@, found.path@, found.enabled),
            ),
            None => desktop_entry(content@) is None,
        },
{
    let text = chars_of(content);
    let spans = split_lines(&text);
    let name_key = chars_of("Name=");
    let exec_key = chars_of("Exec=");
    let hidden_key = chars_of("Hidden=");
    let hidden_word = chars_of("true");
    let mut name: Option<(usize, usize)> = None;
    let mut exec: Option<(usize, usize)> = None;
    let mut hidden = false;
    let ghost lines = lines_of(text@);
    let mut k: usize = 0;
    while k < spans.len()
        invariant
            k <= spans@.len(),
            text@ == content@,
            lines == lines_of(text@),
            name_key@ == "Name="@,
            exec_key@ == "Exec="@,
            hidden_key@ == "Hidden="@,
            hidden_word@ == "true"@,
            spans@.len() == line_spans(text@, 0).len(),
            forall|j: int|
                0 <= j < spans@.len() ==> (#[trigger] spans@[j]).0 == line_spans(text@, 0)[j].0
                    && spans@[j].1 == line_spans(text@, 0)[j].1 && spans@[j].0 <= spans@[j].1
                    <= text@.len(),
            match name {
                Some(span) => span.0 <= span.1 <= text@.len() && value_of(
                    first_lines(text@, k as int),
                    name_key@,
                ) == Some(text@.subrange(span.0 as int, span.1 as int)),
                None => value_of(first_lines(text@, k as int), name_key@) is None,
            },
            match exec {
                Some(span) => span.0 <= span.1 <= text@.len() && value_of(
                    first_lines(text@, k as int),
                    exec_key@,
                ) == Some(text@.subrange(span.0 as int, span.1 as int)),
                None => value_of(first_lines(text@, k as int), exec_key@) is None,
            },
            hidden == (value_of(first_lines(text@, k as int), hidden_key@) == Some(hidden_word@)),
        decreases spans@.len() - k,
    {
        let (from, to) = spans[k];
        proof {
            lemma_value_step(text@, k as int, name_key@);
            lemma_value_step(text@, k as int, exec_key@);
            lemma_value_step(text@, k as int, hidden_key@);
            assert(lines[k as int] == text@.subrange(from as int, to as int));
        }
        let ghost line = text@.subrange(from as int, to as int);
        if line_begins(&text, from, to, &name_key) {
            name = Some((from + name_key.len(), to));
            assert(line.skip(name_key@.len() as int) =~= text@.subrange(
                from + name_key@.len(),
                to as int,
            ));
        }
        if line_begins(&text, from, to, &exec_key) {
            exec = Some((from + exec_key.len(), to));
            assert(line.skip(exec_key@.len() as int) =~= text@.subrange(
                from + exec_key@.len(),
                to as int,
            ));
        }
        if line_begins(&text, from, to, &hidden_key) {
            let at = from + hidden_key.len();
            hidden = to - at == hidden_word.len() && matches_at(&text, at, &hidden_word);
            proof {
                let value = line.skip(hidden_key@.len() as int);
                assert(value =~= text@.subrange(at as int, to as int));
                if to - at == hidden_word@.len() {
                    assert(text@.subrange(at as int, at + hidden_word@.len()) == value);
                }
            }
        }
        k += 1;
    }
    assert(first_lines(text@, k as int) =~= lines);
    match (name, exec) {
        (Some(name), Some(exec)) => Some(
            StartupApp {
                name: String::from_str(content.substring_char(name.0, name.1)),
                path: String::from_str(content.substring_char(exec.0, exec.1)),
                enabled: !hidden,
            },
        ),
        _ => None,
    }
}

/// Whether a desktop entry is the one of the program with this name and this
/// command line: `Name=` followed by the name, and `Exec=` followed by the
/// command line, both occur in it.
pub open spec fn names_program(text: Seq<char>, name: Seq<char>, path: Seq<char>) -> bool {
    occurs_in(text, "Name="@ + name) && occurs_in(text, "Exec="@ + path)
}

/// Decides [`names_program`].
pub fn entry_matches(content: &str, name: &str, path: &str) -> (found: bool)
    ensures
        found == names_program(content@, name@, path@),
{
    let text = chars_of(content);
    let mut name_line = chars_of("Name=");
    let mut name_chars = chars_of(name);
    name_line.append(&mut name_chars);
    let mut exec_line = chars_of("Exec=");
    let mut path_chars = chars_of(path);
    exec_line.append(&mut path_chars);
    contains_text(&text, &name_line) && contains_text(&text, &exec_line)
}

/// The lines that do not begin with `Hidden=`, in order.
pub open spec fn kept_lines(lines: Seq<Seq<char>>) -> Seq<Seq<char>>
    decreases lines.len(),
{
    if lines.len() == 0 {
        Seq::empty()
    } else if begins_with(lines.last(), "Hidden="@) {
        kept_lines(lines.drop_last())
    } else {
        kept_lines(lines.drop_last()).push(lines.last())
    }
}

/// The lines with a line feed between each two of them.
pub open spec fn joined(lines: Seq<Seq<char>>) -> Seq<char>
    decreases lines.len(),
{
    if lines.len() == 0 {
        Seq::empty()
    } else if lines.len() == 1 {
        lines[0]
    } else {
        joined(lines.drop_last()) + "\n"@ + lines.last()
    }
}

/// A desktop entry switched on or off: its lines without any that begins with
/// `Hidden=`, and `Hidden=false` or `Hidden=true` as the new last line.
pub open spec fn switched(text: Seq<char>, enable: bool) -> Seq<char> {
    joined(kept_lines(lines_of(text))) + if enable {
        "\nHidden=false\n"@
    } else {
        "\nHidden=true\n"@
    }
}

/// Rewrites a desktop entry so that the program is switched on or off.
pub fn with_hidden_flag(content: &str, enable: bool) -> (rewritten: String)
    ensures
        rewritten@ == switched(content@, enable),
{
    let text = chars_of(content);
    let spans = split_lines(&text);
    let hidden_key = chars_of("Hidden=");
    let mut rewritten = String::new();
    let mut first = true;
    let ghost lines = lines_of(text@);
    let mut k: usize = 0;
    while k < spans.len()
        invariant
            k <= spans@.len(),
            text@ == content@,
            lines == lines_of(text@),
            hidden_key@ == "Hidden="@,
            spans@.len() == line_spans(text@, 0).len(),
            forall|j: int|
                0 <= j < spans@.len() ==> (#[trigger] spans@[j]).0 == line_spans(text@, 0)[j].0
                    && spans@[j].1 == line_spans(text@, 0)[j].1 && spans@[j].0 <= spans@[j].1
                    <= text@.len(),
            rewritten@ == joined(kept_lines(first_lines(text@, k as int))),
            first == (kept_lines(first_lines(text@, k as int)).len() == 0),
        decreases spans@.len() - k,
    {
        let (from, to) = spans[k];
        proof {
            assert(first_lines(text@, k + 1).drop_last() =~= first_lines(text@, k as int));
            assert(first_lines(text@, k + 1).last() == lines[k as int]);
            assert(lines[k as int] == text@.subrange(from as int, to as int));
        }
        if !line_begins(&text, from, to, &hidden_key) {
            let ghost before = kept_lines(first_lines(text@, k as int));
            let ghost after = kept_lines(first_lines(text@, k + 1));
            proof {
                assert(after == before.push(lines[k as int]));
                assert(after.drop_last() =~= before);
                if first {
                    assert(before =~= Seq::<Seq<char>>::empty());
                    assert(rewritten@ =~= Seq::<char>::empty());
                }
            }
            if !first {
                rewritten.append("\n");
            }
            rewritten.append(content.substring_char(from, to));
            first = false;
            proof {
                assert(rewritten@ =~= joined(after));
            }
        }
        k += 1;
    }
    assert(first_lines(text@, k as int) =~= lines);
    if enable {
        rewritten.append("\nHidden=false\n");
    } else {
        rewritten.append("\nHidden=true\n");
    }
    rewritten
}

/// A named value of a registry key.
#[derive(Clone, Debug, PartialEq, Eq)]
pub struct RegistryValue {
    pub name: String,
    pub value: String,
}

/// Whether one of `apps` has this name.
pub open spec fn lists_name(apps: Seq<StartupApp>, name: Seq<char>) -> bool {
    exists|k: int| 0 <= k < apps.len() && (#[trigger] apps[k]).name@ == name
}

/// The startup programs of a registry: those of the key that starts them,
/// switched on, followed by those set aside, switched off. A program set
/// aside under a name that is already listed is passed over.
pub open spec fn merged(enabled: Seq<RegistryValue>, disabled: Seq<RegistryValue>) -> Seq<
    StartupApp,
>
    decreases disabled.len(),
{
    if disabled.len() == 0 {
        enabled.map_values(
            |v: RegistryValue| StartupApp { name: v.name, path: v.value, enabled: true },
        )
    } else {
        let before = merged(enabled, disabled.drop_last());
        let next = disabled.last();
        if lists_name(before, next.name@) {
            before
        } else {
            before.push(StartupApp { name: next.name, path: next.value, enabled: false })
        }
    }
}

/// Decides [`lists_name`].
fn names_listed(apps: &Vec<StartupApp>, name: &String) -> (found: bool)
    ensures
        found == lists_name(apps@, name@),
{
    let mut k: usize = 0;
    while k < apps.len()
        invariant
            k <= apps@.len(),
            forall|j: int| 0 <= j < k ==> (#[trigger] apps@[j]).name@ != name@,
        decreases apps@.len() - k,
    {
        if apps[k].name == *name {
            return true;
        }
        k += 1;
    }
    false
}

/// Lists the startup programs of a registry.
pub fn merge_registry_apps(enabled: Vec<RegistryValue>, disabled: Vec<RegistryValue>) -> (apps: Vec<
    StartupApp,
>)
    ensures
        apps@ == merged(enabled@, disabled@),
{
    let mut apps: Vec<StartupApp> = Vec::new();
    let mut k: usize = 0;
    while k < enabled.len()
        invariant
            k <= enabled@.len(),
            apps@ == enabled@.take(k as int).map_values(
                |v: RegistryValue| StartupApp { name: v.name, path: v.value, enabled: true },
            ),
        decreases enabled@.len() - k,
    {
        let entry = &enabled[k];
        apps.push(
            StartupApp { name: entry.name.clone(), path: entry.value.clone(), enabled: true },
        );
        assert(apps@ =~= enabled@.take(k + 1).map_values(
            |v: RegistryValue| StartupApp { name: v.name, path: v.value, enabled: true },
        ));
        k += 1;
    }
    assert(enabled@.take(k as int) =~= enabled@);
    assert(disabled@.take(0) =~= Seq::<RegistryValue>::empty());
    let mut d: usize = 0;
    while d < disabled.len()
        invariant
            d <= disabled@.len(),
            apps@ == merged(enabled@, disabled@.take(d as int)),
        decreases disabled@.len() - d,
    {
        let entry = &disabled[d];
        proof {
            assert(disabled@.take(d + 1).drop_last() =~= disabled@.take(d as int));
            assert(disabled@.take(d + 1).last() == disabled@[d as int]);
        }
        if !names_listed(&apps, &entry.name) {
            apps.push(
                StartupApp { name: entry.name.clone(), path: entry.value.clone(), enabled: false },
            );
        }
        d += 1;
    }
    assert(disabled@.take(d as int) =~= disabled@);
    apps
}

} // verus!
