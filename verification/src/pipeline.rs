//! The course of a scan after the first pass: whether files are hashed, and
//! which table the report is written from.

use crate::entry::Config;
use crate::hashing::{digest_table, files_to_hash, paired, paths_to_hash, HashPass};
use crate::report::{render_report, report_lines};
use crate::scan::Scan;
use crate::table::{texts, views, GroupView};
use vstd::prelude::*;

verus! {

/// Whether a second pass is there and has taken every file it asked for.
pub open spec fn is_complete(pass: Option<HashPass>) -> bool {
    match pass {
        Some(pass) => pass.digests().len() == pass.requested().len(),
        None => false,
    }
}

/// The table a report is written from: the table of names for a name
/// report, otherwise the table of the digests that the second pass took.
pub open spec fn reported_table(
    names: Seq<GroupView>,
    pass: Option<HashPass>,
    config: Config,
) -> Seq<GroupView> {
    match pass {
        Some(pass) if !config.name_only => digest_table(paired(pass.requested(), pass.digests())),
        _ => names,
    }
}

/// Sets up the second pass. A name report needs none; otherwise the pass
/// asks for the files of every group, or, where only shared keys are to be
/// hashed, of the groups with more than one file.
pub fn second_pass(scan: &Scan, config: &Config) -> (pass: Option<HashPass>)
    ensures
        match pass {
            Some(pass) => !config.name_only && pass.requested() == paths_to_hash(
                views(scan.table@),
                config.hash_only_dup_names,
            ) && pass.digests() == Seq::<Seq<char>>::empty(),
            None => config.name_only,
        },
{
    if config.name_only {
        None
    } else {
        Some(HashPass::new(files_to_hash(&scan.table, config.hash_only_dup_names)))
    }
}

/// Writes the report of a scan. A name report is written from the first
/// pass alone. Any other report is written once the second pass has taken
/// every file it asked for; without such a pass there is no report.
pub fn final_report(scan: &Scan, pass: Option<HashPass>, config: &Config) -> (lines: Option<
    Vec<String>,
>)
    ensures
        match lines {
            Some(lines) => (config.name_only || is_complete(pass)) && texts(lines@) == report_lines(
                reported_table(views(scan.table@), pass, *config),
                texts(scan.empty@),
                *config,
            ),
            None => !config.name_only && !is_complete(pass),
        },
{
    if config.name_only {
        return Some(render_report(&scan.table, &scan.empty, config));
    }
    match pass {
        Some(pass) => match pass.finish() {
            Some(table) => Some(render_report(&table, &scan.empty, config)),
            None => None,
        },
        None => None,
    }
}

} // verus!
