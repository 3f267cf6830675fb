//! The text that `status` and `update` print for each embed: a summary line,
//! then (unless quiet) one line per file.
use vstd::prelude::*;
use vstd::string::StringSliceAdditionalSpecFns;
use crate::color::{bad, fg, header, marker, marker_text, ok, styled, warn};
use crate::scan::{key_of, key_view, EntryReport, EntryState, FileChange};
use crate::text::push_char;
use crate::update::{short, Outcome, UpdateChange};

verus! {

/// The marker letter of a change.
pub open spec fn marker_of(c: FileChange) -> char {
    match c {
        FileChange::Modified(_) => 'M',
        FileChange::Deleted(_) => 'D',
        FileChange::Untracked(_) => '?',
        FileChange::Symlink(_) => 'L',
    }
}

/// What follows the path on a change's line.
pub open spec fn change_note(c: FileChange, allow_untracked: bool) -> Seq<char> {
    match c {
        FileChange::Untracked(_) => if allow_untracked {
            " (untracked, allowed)"@
        } else {
            " (untracked)"@
        },
        FileChange::Symlink(_) => " (symlink)"@,
        _ => Seq::empty(),
    }
}

/// The line of one change: its colored marker, its path and a note.
pub open spec fn change_line(c: FileChange, allow_untracked: bool) -> Seq<char> {
    "  "@ + marker_text(marker_of(c)) + "  "@ + key_view(c) + change_note(c, allow_untracked)
}

/// The summary line of a report for the embed shown as `title`.
pub open spec fn summary_line(title: Seq<char>, state: EntryState, no_changes: bool) -> Seq<char> {
    styled(seq!['1'], title) + ": "@ + match state {
        EntryState::FolderMissing => fg(seq!['3', '1'], "folder missing"@),
        EntryState::Compared => if no_changes {
            fg(seq!['3', '2'], "clean"@)
        } else {
            fg(seq!['3', '3'], "drift"@)
        },
    }
}

/// Whether a report prints one line per change.
pub open spec fn lists_changes(state: EntryState, quiet: bool) -> bool {
    state == EntryState::Compared && !quiet
}

fn change_line_exec(c: &FileChange, allow_untracked: bool) -> (s: String)
    ensures
        s@ == change_line(*c, allow_untracked),
{
    let mut s = String::new();
    s.append("  ");
    let m = marker(c.as_marker());
    s.append(m.as_str());
    s.append("  ");
    s.append(key_of(c));
    match c {
        FileChange::Untracked(_) => {
            if allow_untracked {
                s.append(" (untracked, allowed)");
            } else {
                s.append(" (untracked)");
            }
        },
        FileChange::Symlink(_) => {
            s.append(" (symlink)");
        },
        _ => {},
    }
    assert(s@ =~= change_line(*c, allow_untracked));
    s
}

/// The lines `status` prints for a report of the embed shown as `title`:
/// the summary (`folder missing`, `clean` or `drift`), then, unless `quiet`
/// or the folder is missing, one line per change.
pub fn report_lines(report: &EntryReport, title: &str, quiet: bool) -> (lines: Vec<String>)
    ensures
        lines@.len() == 1 + (if lists_changes(report.state, quiet) {
            report.changes@.len() as int
        } else {
            0
        }),
        lines@[0]@ == summary_line(title@, report.state, report.changes@.len() == 0),
        lists_changes(report.state, quiet) ==> forall|i: int|
            0 <= i < report.changes@.len() ==> #[trigger] lines@[i + 1]@ == change_line(
                report.changes@[i],
                report.allow_untracked,
            ),
{
    let mut first = String::new();
    let h = header(title);
    first.append(h.as_str());
    first.append(": ");
    let word = match report.state {
        EntryState::FolderMissing => bad("folder missing"),
        EntryState::Compared => if report.changes.len() == 0 {
            ok("clean")
        } else {
            warn("drift")
        },
    };
    first.append(word.as_str());
    assert(first@ =~= summary_line(title@, report.state, report.changes@.len() == 0));
    let mut lines: Vec<String> = Vec::new();
    lines.push(first);
    let listing = match report.state {
        EntryState::Compared => !quiet,
        EntryState::FolderMissing => false,
    };
    if listing {
        let mut i: usize = 0;
        while i < report.changes.len()
            invariant
                i <= report.changes@.len(),
                lines@.len() == 1 + i,
                lines@[0]@ == summary_line(title@, report.state, report.changes@.len() == 0),
                forall|j: int| 0 <= j < i ==> #[trigger] lines@[j + 1]@ == change_line(
                    report.changes@[j],
                    report.allow_untracked,
                ),
            decreases report.changes.len() - i,
        {
            let line = change_line_exec(&report.changes[i], report.allow_untracked);
            lines.push(line);
            i = i + 1;
        }
    }
    lines
}

// ---------------------------------------------------------------------------
// Numbers and update outcomes
// ---------------------------------------------------------------------------

/// The decimal digit of `d` (below ten).
pub open spec fn digit(d: nat) -> char {
    if d == 0 {
        '0'
    } else if d == 1 {
        '1'
    } else if d == 2 {
        '2'
    } else if d == 3 {
        '3'
    } else if d == 4 {
        '4'
    } else if d == 5 {
        '5'
    } else if d == 6 {
        '6'
    } else if d == 7 {
        '7'
    } else if d == 8 {
        '8'
    } else {
        '9'
    }
}

/// `n` written in decimal, without leading zeros.
pub open spec fn decimal(n: nat) -> Seq<char>
    decreases n,
{
    if n < 10 {
        seq![digit(n)]
    } else {
        decimal(n / 10) + seq![digit(n % 10)]
    }
}

fn digit_exec(d: usize) -> (c: char)
    requires
        d < 10,
    ensures
        c == digit(d as nat),
{
    if d == 0 {
        '0'
    } else if d == 1 {
        '1'
    } else if d == 2 {
        '2'
    } else if d == 3 {
        '3'
    } else if d == 4 {
        '4'
    } else if d == 5 {
        '5'
    } else if d == 6 {
        '6'
    } else if d == 7 {
        '7'
    } else if d == 8 {
        '8'
    } else {
        '9'
    }
}

/// Append `n` in decimal.
fn push_decimal(s: &mut String, n: usize)
    ensures
        final(s)@ == old(s)@ + decimal(n as nat),
    decreases n,
{
    if n >= 10 {
        push_decimal(s, n / 10);
    }
    push_char(s, digit_exec(n % 10));
    proof {
        if n < 10 {
            assert(n % 10 == n);
        }
    }
}

/// The word for `n` changes.
pub open spec fn changes_word(n: nat) -> Seq<char> {
    if n == 1 {
        "change"@
    } else {
        "changes"@
    }
}

/// The line of one update change.
pub open spec fn update_line(c: UpdateChange) -> Seq<char> {
    match c {
        UpdateChange::Wrote(p) => "  W  "@ + p@,
        UpdateChange::Deleted(p) => "  D  "@ + p@,
        UpdateChange::Removed(p) => "  X  "@ + p@ + " (untracked, removed)"@,
    }
}

/// A commit hash shortened to its first seven bytes (all of it when it is
/// shorter), by its characters.
pub open spec fn short_view(commit: Seq<char>) -> Seq<char> {
    let bytes = vstd::utf8::encode_utf8(commit);
    if bytes.len() >= 7 {
        vstd::utf8::decode_utf8(bytes.take(7))
    } else {
        commit
    }
}

/// Whether a commit hash can be shortened: it is shorter than seven bytes or
/// its seventh byte ends a character.
pub open spec fn shortenable(commit: Seq<char>) -> bool {
    let bytes = vstd::utf8::encode_utf8(commit);
    bytes.len() < 7 || vstd::utf8::is_char_boundary(bytes, 7)
}

/// The summary line of an applied update of the embed shown as `title`.
pub open spec fn updated_line(title: Seq<char>, old_short: Seq<char>, new_short: Seq<char>, same: bool, n: nat) -> Seq<
    char,
> {
    if same {
        title + ": updated, "@ + decimal(n) + " "@ + changes_word(n)
    } else {
        title + ": updated "@ + old_short + " -> "@ + new_short + ", "@ + decimal(n) + " "@ + changes_word(n)
    }
}

/// The lines `update` prints for the outcome of one embed shown as `title`
/// (for a skip because of drift, the hint that goes to the error stream):
/// up to date; no lock file; the `--force` hint; or the applied update's
/// summary (with the commits shortened when the pin moved) followed, unless
/// `quiet`, by one line per file operation.
pub fn outcome_lines(title: &str, outcome: &Outcome, quiet: bool) -> (lines: Vec<String>)
    requires
        outcome matches Outcome::Updated { old_commit, new_commit, .. } ==> shortenable(old_commit@)
            && shortenable(new_commit@),
    ensures
        match *outcome {
            Outcome::UpToDate => lines@.len() == 1 && lines@[0]@ == title@ + ": up to date"@,
            Outcome::SkippedNoLockfile => lines@.len() == 1 && lines@[0]@ == title@
                + ": no lock file (use --force)"@,
            Outcome::SkippedDrift => lines@.len() == 1 && lines@[0]@
                == "error: re-run with --force to overwrite local modifications"@,
            Outcome::Updated { old_commit, new_commit, changes } => {
                &&& lines@.len() == 1 + (if quiet {
                    0
                } else {
                    changes@.len() as int
                })
                &&& lines@[0]@ == updated_line(
                    title@,
                    short_view(old_commit@),
                    short_view(new_commit@),
                    old_commit@ == new_commit@,
                    changes@.len(),
                )
                &&& !quiet ==> forall|i: int|
                    0 <= i < changes@.len() ==> #[trigger] lines@[i + 1]@ == update_line(changes@[i])
            },
        },
{
    let mut first = String::new();
    let mut lines: Vec<String> = Vec::new();
    match outcome {
        Outcome::UpToDate => {
            first.append(title);
            first.append(": up to date");
            assert(first@ =~= title@ + ": up to date"@);
            lines.push(first);
        },
        Outcome::SkippedNoLockfile => {
            first.append(title);
            first.append(": no lock file (use --force)");
            assert(first@ =~= title@ + ": no lock file (use --force)"@);
            lines.push(first);
        },
        Outcome::SkippedDrift => {
            first.append("error: re-run with --force to overwrite local modifications");
            assert(first@ =~= "error: re-run with --force to overwrite local modifications"@);
            lines.push(first);
        },
        Outcome::Updated { old_commit, new_commit, changes } => {
            let n = changes.len();
            first.append(title);
            let same = crate::text::str_eq(old_commit.as_str(), new_commit.as_str());
            if same {
                first.append(": updated, ");
            } else {
                first.append(": updated ");
                let old_str = old_commit.as_str();
                let old_short = short(old_str);
                proof {
                    lemma_short_chars(old_str, old_short);
                }
                first.append(old_short);
                first.append(" -> ");
                let new_str = new_commit.as_str();
                let new_short = short(new_str);
                proof {
                    lemma_short_chars(new_str, new_short);
                }
                first.append(new_short);
                first.append(", ");
            }
            push_decimal(&mut first, n);
            first.append(" ");
            if n == 1 {
                first.append("change");
            } else {
                first.append("changes");
            }
            assert(first@ =~= updated_line(
                title@,
                short_view(old_commit@),
                short_view(new_commit@),
                old_commit@ == new_commit@,
                changes@.len(),
            ));
            lines.push(first);
            if !quiet {
                let mut i: usize = 0;
                while i < changes.len()
                    invariant
                        i <= changes@.len(),
                        lines@.len() == 1 + i,
                        lines@[0]@ == updated_line(
                            title@,
                            short_view(old_commit@),
                            short_view(new_commit@),
                            old_commit@ == new_commit@,
                            changes@.len(),
                        ),
                        forall|j: int| 0 <= j < i ==> #[trigger] lines@[j + 1]@ == update_line(changes@[j]),
                    decreases changes.len() - i,
                {
                    let mut line = String::new();
                    match &changes[i] {
                        UpdateChange::Wrote(p) => {
                            line.append("  W  ");
                            line.append(p.as_str());
                        },
                        UpdateChange::Deleted(p) => {
                            line.append("  D  ");
                            line.append(p.as_str());
                        },
                        UpdateChange::Removed(p) => {
                            line.append("  X  ");
                            line.append(p.as_str());
                            line.append(" (untracked, removed)");
                        },
                    }
                    assert(line@ =~= update_line(changes@[i as int]));
                    lines.push(line);
                    i = i + 1;
                }
            }
        },
    }
    lines
}

/// The characters of a shortened commit hash are the first seven of the
/// hash's (all of them when it is shorter).
proof fn lemma_short_chars(commit: &str, s: &str)
    requires
        shortenable(commit@),
        s.spec_bytes() == if commit.spec_bytes().len() >= 7 {
            commit.spec_bytes().take(7)
        } else {
            commit.spec_bytes()
        },
    ensures
        s@ == short_view(commit@),
{
    vstd::utf8::encode_utf8_decode_utf8(s@);
    vstd::utf8::encode_utf8_decode_utf8(commit@);
    assert(s.spec_bytes() == vstd::utf8::encode_utf8(s@));
    assert(commit.spec_bytes() == vstd::utf8::encode_utf8(commit@));
}

} // verus!
