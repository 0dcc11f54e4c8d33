//! The prompt: a fixed frame around the file tree, the files' text and the
//! task; and the report on what went into it.

use vstd::prelude::*;
use vstd::string::*;
use vstd::utf8::encode_utf8;
use crate::records::FileDump;
use crate::records::FileRecord;
use crate::records::SkippedFile;
use crate::records::SkippedRecord;
use crate::sort::distinct_paths;
use crate::sort::is_sorting_of;
use crate::sort::lemma_sorting_ignores_arrival;
use crate::text::decimal;
use crate::text::ends_with_newline;
use crate::text::has_final_newline;
use crate::text::push_decimal;
use crate::text::trim_end;
use crate::text::trim_end_of;
use crate::tokens::count_tokens;
use crate::tokens::token_count;
use crate::tokens::TokenizerError;
use crate::tree::build_file_tree;
use crate::tree::tree_of;
use crate::tree::tree_text;

verus! {

/// The sentence that opens the prompt.
pub open spec fn preamble() -> Seq<char> {
    "The following is the context of a directory. After the context, I will give you a task. You need to do the task based on the context."@
}

/// The sentence that introduces the task.
pub open spec fn task_heading() -> Seq<char> {
    "Based on the context above, please finish the following task:"@
}

/// What stands between the fences of a file's section: the file's text,
/// with a line feed added where it does not end with one.
pub open spec fn fenced_body(contents: Seq<char>) -> Seq<char> {
    if ends_with_newline(contents) {
        contents
    } else {
        contents + "\n"@
    }
}

/// What stands between the fences always ends with a line feed, so the
/// closing fence stands on a line of its own.
pub proof fn lemma_fenced_body_ends_with_newline(contents: Seq<char>)
    ensures
        ends_with_newline(fenced_body(contents)),
        !ends_with_newline(contents) ==> fenced_body(contents) == contents.push('\n'),
        ends_with_newline(contents) ==> fenced_body(contents) == contents,
{
    reveal_strlit("\n");
    assert("\n"@ =~= seq!['\n']);
    if !ends_with_newline(contents) {
        assert(contents + seq!['\n'] =~= contents.push('\n'));
    }
}

/// The section of one file: a heading with its path, then its text between
/// two fences, then an empty line.
pub open spec fn file_section(file: FileRecord) -> Seq<char> {
    "### "@ + file.path + "\n"@ + "```\n"@ + fenced_body(file.contents) + "```\n\n"@
}

/// The sections of the files, one after the other.
pub open spec fn file_sections(files: Seq<FileDump>) -> Seq<char>
    decreases files.len(),
{
    if files.len() == 0 {
        Seq::empty()
    } else {
        file_sections(files.drop_last()) + file_section(files.last()@)
    }
}

/// The prompt for the files of the directory `root` and the task `task`.
pub open spec fn prompt_text(root: Seq<char>, files: Seq<FileDump>, task: Seq<char>) -> Seq<char> {
    preamble() + "\n"@ + "\n"@ + "# Repository Context\n"@ + "Root: "@ + root + "\n"@ + "\n"@
        + "## File Tree\n"@ + tree_text(tree_of(files)) + "\n"@ + "\n"@ + "## Files\n"@
        + file_sections(files) + "# Task\n"@ + task_heading() + "\n"@ + trim_end(task) + "\n"@
        + "\n"@
}

/// The prompt does not depend on the order in which the files were found:
/// where no path occurs twice, two arrangements of the same files, each
/// sorted, give the same prompt.
pub proof fn lemma_prompt_ignores_arrival(
    root: Seq<char>,
    task: Seq<char>,
    sorted_a: Seq<FileDump>,
    sorted_b: Seq<FileDump>,
    a: Seq<FileDump>,
    b: Seq<FileDump>,
)
    requires
        is_sorting_of(sorted_a, a),
        is_sorting_of(sorted_b, b),
        a.to_multiset() == b.to_multiset(),
        distinct_paths(a),
        distinct_paths(b),
    ensures
        prompt_text(root, sorted_a, task) == prompt_text(root, sorted_b, task),
{
    lemma_sorting_ignores_arrival(sorted_a, sorted_b, a, b);
}

/// Appends the section of `file` to `out`.
pub fn push_file_section(out: &mut String, file: &FileDump)
    ensures
        final(out)@ == old(out)@ + file_section(file@),
{
    out.append("### ");
    out.append(file.relative_path.as_str());
    out.append("\n");
    out.append("```\n");
    out.append(file.contents.as_str());
    if !has_final_newline(file.contents.as_str()) {
        out.append("\n");
    }
    out.append("```\n\n");
    assert(out@ =~= old(out)@ + file_section(file@));
}

/// Puts the prompt together: the frame, the root, the tree of the files,
/// the section of each file, and the task without its trailing white space.
pub fn assemble_prompt(root: &str, files: &[FileDump], task: &str) -> (prompt: String)
    ensures
        prompt@ == prompt_text(root@, files@, task@),
{
    let mut prompt =
        "The following is the context of a directory. After the context, I will give you a task. You need to do the task based on the context.".to_owned();
    prompt.append("\n");
    prompt.append("\n");
    prompt.append("# Repository Context\n");
    prompt.append("Root: ");
    prompt.append(root);
    prompt.append("\n");
    prompt.append("\n");
    let tree = build_file_tree(files);
    prompt.append("## File Tree\n");
    prompt.append(tree.as_str());
    prompt.append("\n");
    prompt.append("\n");
    prompt.append("## Files\n");
    let ghost head = prompt@;
    let mut i: usize = 0;
    proof {
        assert(files@.take(0) =~= Seq::<FileDump>::empty());
        assert(prompt@ =~= head + file_sections(files@.take(0)));
    }
    while i < files.len()
        invariant
            i <= files.len(),
            prompt@ == head + file_sections(files@.take(i as int)),
        decreases files.len() - i,
    {
        proof {
            assert(files@.take(i + 1).drop_last() =~= files@.take(i as int));
            assert(files@.take(i + 1).last() == files@[i as int]);
        }
        push_file_section(&mut prompt, &files[i]);
        assert(prompt@ =~= head + file_sections(files@.take(i + 1)));
        i += 1;
    }
    assert(files@.take(files.len() as int) =~= files@);
    prompt.append("# Task\n");
    prompt.append("Based on the context above, please finish the following task:");
    prompt.append("\n");
    prompt.append(trim_end_of(task));
    prompt.append("\n");
    prompt.append("\n");
    prompt
}

/// The number of bytes that the files' texts take in UTF-8.
pub open spec fn content_bytes(files: Seq<FileDump>) -> nat
    decreases files.len(),
{
    if files.len() == 0 {
        0
    } else {
        content_bytes(files.drop_last()) + encode_utf8(files.last().contents@).len()
    }
}

/// Counts the bytes that the files' texts take in UTF-8.
pub fn total_bytes(files: &[FileDump]) -> (total: u128)
    ensures
        total == content_bytes(files@),
{
    let mut total: u128 = 0;
    let mut i: usize = 0;
    assert(files@.take(0) =~= Seq::<FileDump>::empty());
    while i < files.len()
        invariant
            i <= files.len(),
            total == content_bytes(files@.take(i as int)),
            total <= i * usize::MAX,
        decreases files.len() - i,
    {
        let len = files[i].contents.as_str().as_bytes().len();
        proof {
            assert(files@.take(i + 1).drop_last() =~= files@.take(i as int));
            assert(files@.take(i + 1).last() == files@[i as int]);
            assert(i * usize::MAX + usize::MAX == (i + 1) * usize::MAX) by (nonlinear_arith);
            assert((i + 1) * usize::MAX <= 0x1_0000_0000_0000_0000 * 0xffff_ffff_ffff_ffff)
                by (nonlinear_arith)
                requires
                    0 <= i + 1 <= 0x1_0000_0000_0000_0000,
                    0 <= usize::MAX <= 0xffff_ffff_ffff_ffff,
            ;
        }
        total = total + len as u128;
        i += 1;
    }
    assert(files@.take(files.len() as int) =~= files@);
    total
}

/// What a run reports beside the prompt.
#[derive(Clone, Copy, Debug, PartialEq, Eq)]
pub struct Stats {
    /// The number of tokens of the prompt.
    pub tokens: usize,
    /// The number of files whose text went into the prompt.
    pub files_included: usize,
    /// The number of files left out.
    pub files_skipped: usize,
    /// The number of bytes of the included files' texts.
    pub bytes: u128,
}

/// The line that reports a skipped file.
pub open spec fn skipped_line_text(skipped: SkippedRecord) -> Seq<char> {
    "Skipped: path="@ + skipped.path + ", reason="@ + skipped.reason.text()
}

/// The line that reports the numbers of a run.
pub open spec fn stats_line_text(stats: Stats) -> Seq<char> {
    "Stats: tokens="@ + decimal(stats.tokens as nat) + ", files_included="@ + decimal(
        stats.files_included as nat,
    ) + ", files_skipped="@ + decimal(stats.files_skipped as nat) + ", bytes="@ + decimal(
        stats.bytes as nat,
    )
}

/// Writes the line that reports a skipped file.
pub fn skipped_line(skipped: &SkippedFile) -> (line: String)
    ensures
        line@ == skipped_line_text(skipped@),
{
    let mut line = "Skipped: path=".to_owned();
    line.append(skipped.relative_path.as_str());
    line.append(", reason=");
    let reason = skipped.reason.describe();
    line.append(reason.as_str());
    line
}

/// Writes the line that reports the numbers of a run.
pub fn stats_line(stats: &Stats) -> (line: String)
    ensures
        line@ == stats_line_text(*stats),
{
    let mut line = "Stats: tokens=".to_owned();
    push_decimal(&mut line, stats.tokens as u128);
    line.append(", files_included=");
    push_decimal(&mut line, stats.files_included as u128);
    line.append(", files_skipped=");
    push_decimal(&mut line, stats.files_skipped as u128);
    line.append(", bytes=");
    push_decimal(&mut line, stats.bytes);
    line
}

/// The numbers of a run whose prompt has `tokens` tokens.
pub open spec fn stats_of(files: Seq<FileDump>, skipped: Seq<SkippedFile>, tokens: usize) -> Stats {
    Stats {
        tokens,
        files_included: files.len() as usize,
        files_skipped: skipped.len() as usize,
        bytes: content_bytes(files) as u128,
    }
}

/// The lines that report the skipped files, one for each, in their order.
pub open spec fn skipped_lines(skipped: Seq<SkippedFile>) -> Seq<Seq<char>>
    decreases skipped.len(),
{
    if skipped.len() == 0 {
        Seq::empty()
    } else {
        skipped_lines(skipped.drop_last()).push(skipped_line_text(skipped.last()@))
    }
}

/// The lines of the report: those of the skipped files, then the line of
/// the numbers.
pub open spec fn report_lines(skipped: Seq<SkippedFile>, stats: Stats) -> Seq<Seq<char>> {
    skipped_lines(skipped).push(stats_line_text(stats))
}

/// Works out the numbers of a run whose prompt has `tokens` tokens.
pub fn summarize(files: &[FileDump], skipped: &[SkippedFile], tokens: usize) -> (stats: Stats)
    ensures
        stats == stats_of(files@, skipped@, tokens),
{
    Stats {
        tokens,
        files_included: files.len(),
        files_skipped: skipped.len(),
        bytes: total_bytes(files),
    }
}

/// Writes the report of a run whose prompt has `tokens` tokens.
pub fn report(files: &[FileDump], skipped: &[SkippedFile], tokens: usize) -> (lines: Vec<String>)
    ensures
        lines.deep_view() == report_lines(skipped@, stats_of(files@, skipped@, tokens)),
{
    let stats = summarize(files, skipped, tokens);
    let mut lines: Vec<String> = Vec::new();
    let mut i: usize = 0;
    proof {
        assert(skipped@.take(0) =~= Seq::<SkippedFile>::empty());
        assert(lines.deep_view() =~= skipped_lines(skipped@.take(0)));
    }
    while i < skipped.len()
        invariant
            i <= skipped.len(),
            lines.deep_view() == skipped_lines(skipped@.take(i as int)),
        decreases skipped.len() - i,
    {
        let ghost shown = lines.deep_view();
        let line = skipped_line(&skipped[i]);
        proof {
            assert(skipped@.take(i + 1).drop_last() =~= skipped@.take(i as int));
            assert(skipped@.take(i + 1).last() == skipped@[i as int]);
        }
        lines.push(line);
        assert(lines.deep_view() =~= shown.push(skipped_line_text(skipped@[i as int]@)));
        i += 1;
    }
    assert(skipped@.take(skipped.len() as int) =~= skipped@);
    let ghost shown = lines.deep_view();
    lines.push(stats_line(&stats));
    assert(lines.deep_view() =~= shown.push(stats_line_text(stats)));
    lines
}

/// Counts the tokens of the prompt and writes the report of the run; fails
/// where the tokenizer does.
pub fn report_on(prompt: &str, files: &[FileDump], skipped: &[SkippedFile]) -> (r: Result<
    Vec<String>,
    TokenizerError,
>)
    ensures
        match r {
            Ok(lines) => token_count(prompt@) matches Some(n) && n <= usize::MAX
                && lines.deep_view() == report_lines(
                skipped@,
                stats_of(files@, skipped@, n as usize),
            ),
            Err(_) => token_count(prompt@) is None,
        },
{
    match count_tokens(prompt) {
        Ok(tokens) => Ok(report(files, skipped, tokens)),
        Err(failure) => Err(failure),
    }
}

} // verus!
