//! The new content of a block's target file, computed from the block and the
//! file's current content; and the effect of a batch of blocks on a file tree.
use vstd::prelude::*;
use crate::diff::{
    apply_hunk_list, apply_hunks, expected_index, hunks_view, locate, matches_at, new_side, old_side,
    parse_diff, parse_diff_lines, search_near, splice, DiffHunk, HunkModel, FUZZ_LINES,
};
use crate::extractor::{BlockModel, BlockType, ParsedBlock};
use crate::text::{chars_of, join_line_chars, join_lines, lines_of, lines_view, split_lines, string_of};

verus! {

/// Why a block could not be applied.
#[derive(Clone, Copy, Debug, PartialEq, Eq, Structural)]
pub enum ApplyError {
    /// A malformed diff header or hunk, or a count that does not match.
    DiffParseError,
    /// The diff edits existing lines of a file that does not exist.
    FileNotFound,
    /// A hunk's context could not be found within the search window.
    PatchConflict,
    /// Reading or writing the target file failed.
    IoError,
}

/// Whether every hunk has an empty pre-image.
pub open spec fn pure_addition(hs: Seq<HunkModel>) -> bool {
    forall|k: int| 0 <= k < hs.len() ==> (#[trigger] hs[k]).old_count == 0
}

/// The text after applying the hunks to a line buffer, each line ending
/// with `\n`.
pub open spec fn patched(buf: Seq<Seq<char>>, hs: Seq<HunkModel>) -> Result<Seq<char>, ApplyError> {
    match apply_hunks(buf, hs, 0) {
        Some(r) => Ok(join_lines(r)),
        None => Err(ApplyError::PatchConflict),
    }
}

/// The new content of a block's target file, given its current content
/// (`None` when it does not exist). A full-content block is written as it
/// stands, an empty one included. A diff is applied to the file's lines as
/// `lines_of` splits them, and the result is rebuilt with `join_lines`: by
/// design every line of a patched file, touched or not, ends with a single
/// `\n` (a `\r\n` ending becomes `\n`, and a missing final newline is added).
pub open spec fn applied(b: BlockModel, existing: Option<Seq<char>>) -> Result<Seq<char>, ApplyError> {
    match b.block_type {
        BlockType::FullContent => Ok(b.content),
        BlockType::UnifiedDiff => match parse_diff(lines_of(b.content)) {
            None => Err(ApplyError::DiffParseError),
            Some(hs) => match existing {
                Some(t) => patched(lines_of(t), hs),
                None => if pure_addition(hs) {
                    patched(Seq::empty(), hs)
                } else {
                    Err(ApplyError::FileNotFound)
                },
            },
        },
    }
}

/// The file tree and the outcome of each block after applying the blocks in
/// order; a block that fails leaves the tree as it was.
pub open spec fn run_batch(blocks: Seq<BlockModel>, fs: Map<Seq<char>, Seq<char>>) -> (
    Map<Seq<char>, Seq<char>>,
    Seq<Result<(), ApplyError>>,
)
    decreases blocks.len(),
{
    if blocks.len() == 0 {
        (fs, Seq::empty())
    } else {
        let (m, rs) = run_batch(blocks.drop_last(), fs);
        let b = blocks.last();
        let existing = if m.contains_key(b.filename) {
            Some(m[b.filename])
        } else {
            None
        };
        match applied(b, existing) {
            Ok(c) => (m.insert(b.filename, c), rs.push(Ok(()))),
            Err(e) => (m, rs.push(Err(e))),
        }
    }
}

/// Whether every hunk has an empty pre-image, as `pure_addition` states.
fn all_pure_additions(hunks: &Vec<DiffHunk>) -> (r: bool)
    ensures
        r == pure_addition(hunks_view(hunks@)),
{
    let mut k: usize = 0;
    while k < hunks.len()
        invariant
            k <= hunks@.len(),
            forall|m: int| 0 <= m < k ==> (#[trigger] hunks_view(hunks@)[m]).old_count == 0,
        decreases hunks@.len() - k,
    {
        if hunks[k].old_count != 0 {
            assert(hunks_view(hunks@)[k as int].old_count != 0);
            return false;
        }
        k += 1;
    }
    true
}

/// The text after applying the hunks, as `patched` states.
fn patch_lines(buf: Vec<Vec<char>>, hunks: &Vec<DiffHunk>) -> (r: Result<String, ApplyError>)
    ensures
        match patched(lines_view(buf@), hunks_view(hunks@)) {
            Ok(t) => r matches Ok(s) && s@ == t,
            Err(e) => r == Err::<String, ApplyError>(e),
        },
{
    match apply_hunk_list(buf, hunks) {
        None => Err(ApplyError::PatchConflict),
        Some(out) => {
            let mut text: Vec<char> = Vec::new();
            join_line_chars(&out, 0, out.len(), &mut text);
            assert(out@.subrange(0, out@.len() as int) =~= out@);
            Ok(string_of(&text))
        },
    }
}

/// Computes the new content of a block's target file from its current
/// content (`None` when the file does not exist), as `applied` states.
pub fn apply_block(block: &ParsedBlock, existing: Option<&str>) -> (r: Result<String, ApplyError>)
    ensures
        ({
            let ex = match existing {
                Some(t) => Some(t@),
                None => None,
            };
            match applied(block@, ex) {
                Ok(t) => r matches Ok(s) && s@ == t,
                Err(e) => r == Err::<String, ApplyError>(e),
            }
        }),
{
    match block.block_type {
        BlockType::FullContent => {
            let c = chars_of(block.content.as_str());
            Ok(string_of(&c))
        },
        BlockType::UnifiedDiff => {
            let diff = chars_of(block.content.as_str());
            let ls = split_lines(&diff);
            let hunks = match parse_diff_lines(&ls) {
                Some(h) => h,
                None => return Err(ApplyError::DiffParseError),
            };
            match existing {
                Some(t) => {
                    let tc = chars_of(t);
                    let buf = split_lines(&tc);
                    patch_lines(buf, &hunks)
                },
                None => {
                    if all_pure_additions(&hunks) {
                        let buf: Vec<Vec<char>> = Vec::new();
                        assert(lines_view(buf@) =~= Seq::<Seq<char>>::empty());
                        patch_lines(buf, &hunks)
                    } else {
                        Err(ApplyError::FileNotFound)
                    }
                },
            }
        },
    }
}

/// The current content of a file in a tree, `None` when it does not exist.
pub open spec fn content_in(fs: Map<Seq<char>, Seq<char>>, name: Seq<char>) -> Option<Seq<char>> {
    if fs.contains_key(name) {
        Some(fs[name])
    } else {
        None
    }
}

/// The buffer after splicing each hunk in at exactly its expected index plus
/// the running offset, as one would patch by hand.
pub open spec fn patch_exact(buf: Seq<Seq<char>>, hs: Seq<HunkModel>, offset: int) -> Seq<Seq<char>>
    decreases hs.len(),
{
    if hs.len() == 0 {
        buf
    } else {
        let old = old_side(hs[0].lines);
        let new = new_side(hs[0].lines);
        patch_exact(
            splice(buf, expected_index(hs[0]) + offset, old.len() as int, new),
            hs.drop_first(),
            offset + new.len() - old.len(),
        )
    }
}

/// Whether each hunk's pre-image stands exactly at its expected index plus
/// the running offset, in the buffer that the hunks before it produced.
pub open spec fn matches_cleanly(buf: Seq<Seq<char>>, hs: Seq<HunkModel>, offset: int) -> bool
    decreases hs.len(),
{
    if hs.len() == 0 {
        true
    } else {
        let old = old_side(hs[0].lines);
        let new = new_side(hs[0].lines);
        matches_at(buf, old, expected_index(hs[0]) + offset) && matches_cleanly(
            splice(buf, expected_index(hs[0]) + offset, old.len() as int, new),
            hs.drop_first(),
            offset + new.len() - old.len(),
        )
    }
}

/// Whether a diff block has one hunk whose pre-image stands nowhere in the
/// text within the search window around its expected index.
pub open spec fn conflicts_with(d: BlockModel, t: Seq<char>) -> bool {
    match parse_diff(lines_of(d.content)) {
        Some(hs) => hs.len() == 1 && forall|p: int|
            expected_index(hs[0]) - FUZZ_LINES <= p <= expected_index(hs[0]) + FUZZ_LINES ==> !matches_at(
                lines_of(t),
                old_side(hs[0].lines),
                p,
            ),
        None => false,
    }
}

proof fn lemma_clean_hunks(buf: Seq<Seq<char>>, hs: Seq<HunkModel>, offset: int)
    requires
        matches_cleanly(buf, hs, offset),
    ensures
        apply_hunks(buf, hs, offset) == Some(patch_exact(buf, hs, offset)),
    decreases hs.len(),
{
    if hs.len() > 0 {
        let old = old_side(hs[0].lines);
        let new = new_side(hs[0].lines);
        lemma_clean_hunks(
            splice(buf, expected_index(hs[0]) + offset, old.len() as int, new),
            hs.drop_first(),
            offset + new.len() - old.len(),
        );
    }
}

proof fn lemma_no_match_near(buf: Seq<Seq<char>>, old: Seq<Seq<char>>, exp: int, d: int)
    requires
        1 <= d,
        forall|p: int| exp - FUZZ_LINES <= p <= exp + FUZZ_LINES ==> !matches_at(buf, old, p),
    ensures
        search_near(buf, old, exp, d) is None,
    decreases FUZZ_LINES + 1 - d,
{
    if d <= FUZZ_LINES {
        assert(!matches_at(buf, old, exp - d));
        assert(!matches_at(buf, old, exp + d));
        lemma_no_match_near(buf, old, exp, d + 1);
    }
}

/// Applying a full-content block yields exactly the block's content whatever
/// the file held, so reading the file back gives that content; and applying
/// the block a second time leaves the tree as the first time did.
pub proof fn full_content_round_trip(b: BlockModel, fs: Map<Seq<char>, Seq<char>>)
    requires
        b.block_type == BlockType::FullContent,
    ensures
        applied(b, content_in(fs, b.filename)) == Ok::<Seq<char>, ApplyError>(b.content),
        run_batch(seq![b], fs).0 == fs.insert(b.filename, b.content),
        run_batch(seq![b], fs).0[b.filename] == b.content,
        run_batch(seq![b, b], fs).0 == run_batch(seq![b], fs).0,
{
    reveal_with_fuel(run_batch, 3);
    assert(seq![b].drop_last() =~= Seq::<BlockModel>::empty());
    assert(seq![b, b].drop_last() =~= seq![b]);
    assert(run_batch(Seq::empty(), fs).0 == fs);
    let m = fs.insert(b.filename, b.content);
    assert(m.insert(b.filename, b.content) =~= m);
}

/// A diff whose hunks all match where they are expected gives the pre-image
/// patched by hand: each hunk spliced in at its expected index plus the net
/// lines added by the hunks before it, with every line ending in `\n`.
pub proof fn clean_diff_is_exact_patch(b: BlockModel, t: Seq<char>)
    requires
        b.block_type == BlockType::UnifiedDiff,
        parse_diff(lines_of(b.content)) is Some,
        matches_cleanly(lines_of(t), parse_diff(lines_of(b.content))->0, 0),
    ensures
        applied(b, Some(t)) == Ok::<Seq<char>, ApplyError>(
            join_lines(patch_exact(lines_of(t), parse_diff(lines_of(b.content))->0, 0)),
        ),
{
    lemma_clean_hunks(lines_of(t), parse_diff(lines_of(b.content))->0, 0);
}

/// A diff block whose context is missing from its target fails with a patch
/// conflict and leaves that file as it was, while a block for another file
/// in the same batch is applied exactly as it would be alone.
pub proof fn conflict_spares_other_blocks(d: BlockModel, other: BlockModel, fs: Map<Seq<char>, Seq<char>>)
    requires
        d.block_type == BlockType::UnifiedDiff,
        fs.contains_key(d.filename),
        conflicts_with(d, fs[d.filename]),
        d.filename != other.filename,
    ensures
        applied(d, Some(fs[d.filename])) == Err::<Seq<char>, ApplyError>(ApplyError::PatchConflict),
        run_batch(seq![d, other], fs).1[0] == Err::<(), ApplyError>(ApplyError::PatchConflict),
        run_batch(seq![d, other], fs).0[d.filename] == fs[d.filename],
        run_batch(seq![d, other], fs).1[1] is Ok <==> applied(other, content_in(fs, other.filename)) is Ok,
        applied(other, content_in(fs, other.filename)) matches Ok(c) ==> run_batch(seq![d, other], fs).0[other.filename] == c,
{
    let hs = parse_diff(lines_of(d.content))->0;
    let buf = lines_of(fs[d.filename]);
    let old = old_side(hs[0].lines);
    lemma_no_match_near(buf, old, expected_index(hs[0]), 1);
    assert(!matches_at(buf, old, expected_index(hs[0])));
    assert(locate(buf, old, expected_index(hs[0]) + 0) is None);
    assert(apply_hunks(buf, hs, 0) is None);
    reveal_with_fuel(run_batch, 3);
    assert(seq![d].drop_last() =~= Seq::<BlockModel>::empty());
    assert(seq![d, other].drop_last() =~= seq![d]);
    assert(run_batch(Seq::empty(), fs).0 == fs);
    assert(run_batch(seq![d], fs).0 == fs);
}

} // verus!
