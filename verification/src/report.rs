//! The report: the groups with more than one path, as lines of text.

use crate::entry::{Config, OutputFormat};
use crate::table::{texts, views, Group, GroupView, Key, KeyView};
use crate::text::{decimal, push_decimal};
use vstd::prelude::*;

verus! {

/// A path as it is listed in a console report.
pub open spec fn indented(path: Seq<char>) -> Seq<char> {
    "    "@ + path
}

/// The paths joined by commas.
pub open spec fn joined(paths: Seq<Seq<char>>) -> Seq<char>
    decreases paths.len(),
{
    if paths.len() == 0 {
        Seq::empty()
    } else if paths.len() == 1 {
        paths[0]
    } else {
        joined(paths.drop_last()) + ","@ + paths.last()
    }
}

/// The heading of a group in a console report.
pub open spec fn heading(key: KeyView) -> Seq<char> {
    match key {
        KeyView::Name(name) => name + ":"@,
        KeyView::NameSize(name, size) => name + " ("@ + decimal(size as nat) + " B):"@,
        KeyView::Digest(digest) => digest + ":"@,
    }
}

/// The fields of a CSV line that stand before the paths.
pub open spec fn csv_fields(key: KeyView) -> Seq<char> {
    match key {
        KeyView::Name(name) => name,
        KeyView::NameSize(name, size) => name + ","@ + decimal(size as nat),
        KeyView::Digest(digest) => digest,
    }
}

/// The CSV line of a group: its key fields, then its paths.
pub open spec fn csv_line(group: GroupView) -> Seq<char> {
    csv_fields(group.key) + ","@ + joined(group.paths)
}

/// The console lines of a group: the heading, the paths, an empty line.
pub open spec fn console_block(group: GroupView) -> Seq<Seq<char>> {
    seq![heading(group.key)] + group.paths.map_values(|p: Seq<char>| indented(p)) + seq![
        Seq::<char>::empty(),
    ]
}

/// Whether a group is reported: it holds more than one path.
pub open spec fn is_reported(group: GroupView) -> bool {
    group.paths.len() > 1
}

/// The groups of a table that are reported, in the table's order.
pub open spec fn reported(table: Seq<GroupView>) -> Seq<GroupView> {
    table.filter(|g: GroupView| is_reported(g))
}

/// The lines for the reported groups of a table.
pub open spec fn group_lines(table: Seq<GroupView>, format: OutputFormat) -> Seq<Seq<char>> {
    match format {
        OutputFormat::Csv => reported(table).map_values(|g: GroupView| csv_line(g)),
        OutputFormat::Console => reported(table).map_values(
            |g: GroupView| console_block(g),
        ).flatten(),
    }
}

/// The line that opens a name report on the console: the number of groups
/// in the table.
pub open spec fn issues_line(groups: nat) -> Seq<char> {
    decimal(groups) + " issues found:"@
}

/// The section on empty files: their number, then their paths.
pub open spec fn empty_section(empty: Seq<Seq<char>>) -> Seq<Seq<char>> {
    seq![decimal(empty.len()) + " empty files:"@] + empty.map_values(|p: Seq<char>| indented(p))
}

/// The whole report. In a name report on the console the count of groups
/// comes first; then the reported groups; on the console, where asked for,
/// the empty files close the report.
pub open spec fn report_lines(table: Seq<GroupView>, empty: Seq<Seq<char>>, config: Config) -> Seq<
    Seq<char>,
> {
    let opening = if config.name_only && config.format == OutputFormat::Console {
        seq![issues_line(table.len())]
    } else {
        Seq::empty()
    };
    let closing = if config.list_empty && config.format == OutputFormat::Console {
        empty_section(empty)
    } else {
        Seq::empty()
    };
    opening + group_lines(table, config.format) + closing
}

/// Joins paths by commas.
pub fn join_paths(paths: &Vec<String>) -> (line: String)
    ensures
        line@ == joined(texts(paths@)),
{
    let mut line = String::new();
    let ghost all = texts(paths@);
    let mut i: usize = 0;
    while i < paths.len()
        invariant
            i <= paths.len(),
            all == texts(paths@),
            line@ == joined(all.take(i as int)),
        decreases paths.len() - i,
    {
        proof {
            assert(all.take(i + 1).drop_last() =~= all.take(i as int));
        }
        if i > 0 {
            line.append(",");
        }
        line.append(paths[i].as_str());
        i = i + 1;
    }
    assert(all.take(i as int) =~= all);
    line
}

/// Writes the console heading of a group.
pub fn heading_of(key: &Key) -> (line: String)
    ensures
        line@ == heading(key@),
{
    match key {
        Key::Name(name) => {
            let mut line = name.clone();
            line.append(":");
            line
        },
        Key::NameSize(name, size) => {
            let mut line = name.clone();
            line.append(" (");
            push_decimal(&mut line, *size);
            line.append(" B):");
            line
        },
        Key::Digest(digest) => {
            let mut line = digest.clone();
            line.append(":");
            line
        },
    }
}

/// Writes the CSV line of a group.
pub fn csv_line_of(group: &Group) -> (line: String)
    ensures
        line@ == csv_line(group@),
{
    let mut line = match &group.key {
        Key::Name(name) => name.clone(),
        Key::NameSize(name, size) => {
            let mut head = name.clone();
            head.append(",");
            push_decimal(&mut head, *size);
            head
        },
        Key::Digest(digest) => digest.clone(),
    };
    line.append(",");
    let paths = join_paths(&group.paths);
    line.append(paths.as_str());
    line
}

/// Appends each path, indented, as a line of its own.
pub fn push_indented(lines: &mut Vec<String>, paths: &Vec<String>)
    ensures
        texts(final(lines)@) == texts(old(lines)@) + texts(paths@).map_values(
            |p: Seq<char>| indented(p),
        ),
{
    let ghost before = texts(lines@);
    let ghost all = texts(paths@).map_values(|p: Seq<char>| indented(p));
    let mut i: usize = 0;
    assert(texts(lines@) =~= before + all.take(0));
    while i < paths.len()
        invariant
            i <= paths.len(),
            all == texts(paths@).map_values(|p: Seq<char>| indented(p)),
            texts(lines@) == before + all.take(i as int),
        decreases paths.len() - i,
    {
        let ghost so_far = texts(lines@);
        let mut line = String::from_str("    ");
        line.append(paths[i].as_str());
        lines.push(line);
        assert(texts(lines@) =~= so_far.push(line@));
        assert(all.take(i + 1) =~= all.take(i as int).push(line@));
        i = i + 1;
    }
    assert(all.take(i as int) =~= all);
}

/// Appends the console lines of a group.
pub fn push_console_block(lines: &mut Vec<String>, group: &Group)
    ensures
        texts(final(lines)@) == texts(old(lines)@) + console_block(group@),
{
    let ghost before = texts(lines@);
    let head = heading_of(&group.key);
    lines.push(head);
    assert(texts(lines@) =~= before + seq![heading(group@.key)]);
    push_indented(lines, &group.paths);
    let ghost so_far = texts(lines@);
    let blank = String::new();
    lines.push(blank);
    assert(texts(lines@) =~= so_far.push(blank@));
    assert(texts(lines@) =~= before + console_block(group@));
}

/// Appends the lines for the reported groups of a table.
pub fn push_group_lines(lines: &mut Vec<String>, table: &Vec<Group>, format: OutputFormat)
    ensures
        texts(final(lines)@) == texts(old(lines)@) + group_lines(views(table@), format),
{
    let ghost before = texts(lines@);
    let ghost all = views(table@);
    let mut g: usize = 0;
    assert(texts(lines@) =~= before + group_lines(all.take(0), format));
    while g < table.len()
        invariant
            g <= table.len(),
            all == views(table@),
            texts(lines@) == before + group_lines(all.take(g as int), format),
        decreases table.len() - g,
    {
        let group = &table[g];
        let ghost so_far = texts(lines@);
        proof {
            let seen = all.take(g as int);
            let shown = |x: GroupView| is_reported(x);
            assert(all.take(g + 1) =~= seen.push(group@));
            seen.lemma_filter_push(group@, shown);
            if is_reported(group@) {
                seen.filter(shown).lemma_push_map_commute(|x: GroupView| csv_line(x), group@);
                seen.filter(shown).lemma_push_map_commute(
                    |x: GroupView| console_block(x),
                    group@,
                );
                seen.filter(shown).map_values(|x: GroupView| console_block(x)).lemma_flatten_push(
                    console_block(group@),
                );
            }
        }
        if group.paths.len() > 1 {
            match format {
                OutputFormat::Csv => {
                    let line = csv_line_of(group);
                    lines.push(line);
                    assert(texts(lines@) =~= so_far.push(line@));
                },
                OutputFormat::Console => {
                    push_console_block(lines, group);
                },
            }
        }
        assert(texts(lines@) =~= before + group_lines(all.take(g + 1), format));
        g = g + 1;
    }
    assert(all.take(g as int) =~= all);
}

/// Appends the section on empty files.
pub fn push_empty_section(lines: &mut Vec<String>, empty: &Vec<String>)
    ensures
        texts(final(lines)@) == texts(old(lines)@) + empty_section(texts(empty@)),
{
    let ghost before = texts(lines@);
    let mut head = String::new();
    push_decimal(&mut head, empty.len() as u64);
    head.append(" empty files:");
    lines.push(head);
    assert(texts(lines@) =~= before.push(head@));
    push_indented(lines, empty);
    assert(texts(lines@) =~= before + empty_section(texts(empty@)));
}

/// Renders the report of a table and the empty files under `config`, one
/// string per line. The table is the table of names for a name report, the
/// table of digests otherwise.
pub fn render_report(table: &Vec<Group>, empty: &Vec<String>, config: &Config) -> (lines: Vec<
    String,
>)
    ensures
        texts(lines@) == report_lines(views(table@), texts(empty@), *config),
{
    let mut lines: Vec<String> = Vec::new();
    let console = match config.format {
        OutputFormat::Console => true,
        OutputFormat::Csv => false,
    };
    if config.name_only && console {
        let mut head = String::new();
        push_decimal(&mut head, table.len() as u64);
        head.append(" issues found:");
        lines.push(head);
        assert(texts(lines@) =~= seq![issues_line(views(table@).len())]);
    }
    assert(texts(lines@) =~= if config.name_only && config.format == OutputFormat::Console {
        seq![issues_line(views(table@).len())]
    } else {
        Seq::empty()
    });
    push_group_lines(&mut lines, table, config.format);
    if config.list_empty && console {
        push_empty_section(&mut lines, empty);
    }
    assert(texts(lines@) =~= report_lines(views(table@), texts(empty@), *config));
    lines
}

} // verus!
