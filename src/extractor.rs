//! Recovers per-file change blocks from pasted text.
use vstd::prelude::*;
use crate::paths::{normalize_path, normalized};
use crate::text::{
    lemma_lines_of_join, plain_line, chars_of, ends_with, has_prefix, has_suffix, join_line_chars, join_lines, lines_of,
    lines_view, slice_chars, split_lines, starts_with, string_of,
};

verus! {

/// How a block's payload is to be applied.
#[derive(Clone, Copy, Debug, PartialEq, Eq, Structural)]
pub enum BlockType {
    /// The whole new content of the file.
    FullContent,
    /// A unified diff against the file's current content.
    UnifiedDiff,
}

/// One discovered per-file change.
#[derive(Clone, Debug)]
pub struct ParsedBlock {
    pub filename: String,
    pub content: String,
    pub block_type: BlockType,
}

/// The value of a `ParsedBlock`.
pub struct BlockModel {
    pub filename: Seq<char>,
    pub content: Seq<char>,
    pub block_type: BlockType,
}

impl View for ParsedBlock {
    type V = BlockModel;

    open spec fn view(&self) -> BlockModel {
        BlockModel {
            filename: self.filename@,
            content: self.content@,
            block_type: self.block_type,
        }
    }
}

/// The values of a sequence of blocks.
pub open spec fn blocks_view(bs: Seq<ParsedBlock>) -> Seq<BlockModel> {
    bs.map_values(|b: ParsedBlock| b@)
}

/// A line that opens or closes a fenced region.
pub open spec fn is_fence(l: Seq<char>) -> bool {
    starts_with(l, "```"@)
}

/// The path named by a heading line ``### `<path>` ``.
pub open spec fn heading_path(l: Seq<char>) -> Option<Seq<char>> {
    let h = "### `"@;
    if starts_with(l, h) && l.len() > h.len() && l.last() == '`' {
        Some(l.subrange(h.len() as int, l.len() - 1))
    } else {
        None
    }
}

/// A path without one pair of enclosing backticks.
pub open spec fn unquoted(p: Seq<char>) -> Seq<char> {
    if p.len() >= 2 && p[0] == '`' && p.last() == '`' {
        p.subrange(1, p.len() - 1)
    } else {
        p
    }
}

/// The text between `open` and `close` when the line has that shape.
pub open spec fn between(l: Seq<char>, open: Seq<char>, close: Seq<char>) -> Option<Seq<char>> {
    if starts_with(l, open) && ends_with(l, close) && open.len() + close.len() <= l.len() {
        Some(unquoted(l.subrange(open.len() as int, l.len() - close.len())))
    } else {
        None
    }
}

/// The path named by a first-line comment `filename: <path>`, in one of the
/// comment styles `//`, `#`, `<!-- -->` and `/* */`, tried in that order.
/// Rendering picks the style from the extension table (`filename_comment`);
/// reading is lenient on purpose and accepts any of the four styles for any
/// extension, since generated replies often mix them up.
pub open spec fn comment_path(l: Seq<char>) -> Option<Seq<char>> {
    if between(l, "// filename: "@, ""@) is Some {
        between(l, "// filename: "@, ""@)
    } else if between(l, "# filename: "@, ""@) is Some {
        between(l, "# filename: "@, ""@)
    } else if between(l, "<!-- filename: "@, " -->"@) is Some {
        between(l, "<!-- filename: "@, " -->"@)
    } else {
        between(l, "/* filename: "@, " */"@)
    }
}

/// Whether a block body has the shape of a unified diff: a `---` line, a
/// `+++` line, and a hunk marker `@@ -` after them.
pub open spec fn is_diff_shape(body: Seq<Seq<char>>) -> bool {
    &&& body.len() >= 3
    &&& starts_with(body[0], "---"@)
    &&& starts_with(body[1], "+++"@)
    &&& exists|k: int| 2 <= k < body.len() && starts_with(#[trigger] body[k], "@@ -"@)
}

/// The block for a file name and the lines of its payload.
pub open spec fn block_of(name: Seq<char>, body: Seq<Seq<char>>) -> BlockModel {
    BlockModel {
        filename: name,
        content: join_lines(body),
        block_type: if is_diff_shape(body) {
            BlockType::UnifiedDiff
        } else {
            BlockType::FullContent
        },
    }
}

/// The block of a fenced region, given the line just before its fence: the
/// heading names the file if it can, else the region's first line does (and
/// is not part of the payload). `None` when no non-empty name is found.
pub open spec fn make_block(before: Option<Seq<char>>, body: Seq<Seq<char>>) -> Option<BlockModel> {
    let heading = match before {
        Some(l) => heading_path(l),
        None => None,
    };
    if heading is Some && normalized(heading->0).len() > 0 {
        Some(block_of(normalized(heading->0), body))
    } else if body.len() > 0 && comment_path(body[0]) is Some && normalized(
        comment_path(body[0])->0,
    ).len() > 0 {
        Some(block_of(normalized(comment_path(body[0])->0), body.drop_first()))
    } else {
        None
    }
}

/// The index of the first fence line at or after `k` (the length if none).
pub open spec fn next_fence(ls: Seq<Seq<char>>, k: int) -> int
    decreases ls.len() - k,
{
    if k >= ls.len() {
        ls.len() as int
    } else if is_fence(ls[k]) {
        k
    } else {
        next_fence(ls, k + 1)
    }
}

/// The blocks of the fenced regions that start at or after line `i`, in order.
/// An unclosed region at the end yields nothing.
pub open spec fn extract_from(ls: Seq<Seq<char>>, i: int) -> Seq<BlockModel>
    decreases ls.len() - i,
{
    if i < 0 || i >= ls.len() {
        Seq::empty()
    } else if is_fence(ls[i]) {
        let j = next_fence(ls, i + 1);
        if j <= i || j >= ls.len() {
            Seq::empty()
        } else {
            let before = if i > 0 {
                Some(ls[i - 1])
            } else {
                None
            };
            let rest = extract_from(ls, j + 1);
            match make_block(before, ls.subrange(i + 1, j)) {
                Some(b) => seq![b] + rest,
                None => rest,
            }
        }
    } else {
        extract_from(ls, i + 1)
    }
}

/// How many fenced regions from line `i` on are skipped: those without a
/// file name, and an unclosed region at the end.
pub open spec fn skipped_from(ls: Seq<Seq<char>>, i: int) -> nat
    decreases ls.len() - i,
{
    if i < 0 || i >= ls.len() {
        0
    } else if is_fence(ls[i]) {
        let j = next_fence(ls, i + 1);
        if j <= i || j >= ls.len() {
            1
        } else {
            let rest = skipped_from(ls, j + 1);
            match make_block(line_before(ls, i), ls.subrange(i + 1, j)) {
                Some(b) => rest,
                None => rest + 1,
            }
        }
    } else {
        skipped_from(ls, i + 1)
    }
}

/// How many fenced regions `extract` skips in a text.
pub open spec fn skipped(t: Seq<char>) -> nat {
    skipped_from(lines_of(t), 0)
}

/// The blocks that `extract` finds in a text.
pub open spec fn extracted(t: Seq<char>) -> Seq<BlockModel> {
    extract_from(lines_of(t), 0)
}

/// The path of a heading line, as `heading_path` states.
fn heading_of(l: &Vec<char>) -> (r: Option<Vec<char>>)
    ensures
        match heading_path(l@) {
            Some(p) => r is Some && r->0@ == p,
            None => r is None,
        },
{
    let h = chars_of("### `");
    if has_prefix(l, &h) && l.len() > h.len() && l[l.len() - 1] == '`' {
        Some(slice_chars(l, h.len(), l.len() - 1))
    } else {
        None
    }
}

/// The text between `open` and `close`, as `between` states.
fn between_of(l: &Vec<char>, open: &str, close: &str) -> (r: Option<Vec<char>>)
    ensures
        match between(l@, open@, close@) {
            Some(p) => r is Some && r->0@ == p,
            None => r is None,
        },
{
    let o = chars_of(open);
    let c = chars_of(close);
    if has_prefix(l, &o) && has_suffix(l, &c) && o.len() <= l.len() && c.len() <= l.len() - o.len() {
        let inner = slice_chars(l, o.len(), l.len() - c.len());
        let n = inner.len();
        if n >= 2 && inner[0] == '`' && inner[n - 1] == '`' {
            Some(slice_chars(&inner, 1, n - 1))
        } else {
            Some(inner)
        }
    } else {
        None
    }
}

/// The path of a first-line comment, as `comment_path` states.
fn comment_of(l: &Vec<char>) -> (r: Option<Vec<char>>)
    ensures
        match comment_path(l@) {
            Some(p) => r is Some && r->0@ == p,
            None => r is None,
        },
{
    let a = between_of(l, "// filename: ", "");
    if a.is_some() {
        return a;
    }
    let b = between_of(l, "# filename: ", "");
    if b.is_some() {
        return b;
    }
    let c = between_of(l, "<!-- filename: ", " -->");
    if c.is_some() {
        return c;
    }
    between_of(l, "/* filename: ", " */")
}

/// The normal form of a path given as characters.
fn normalize_chars(p: &Vec<char>) -> (r: Vec<char>)
    ensures
        r@ == normalized(p@),
{
    let s = string_of(p);
    let n = normalize_path(s.as_str());
    chars_of(n.as_str())
}

/// Whether `ls[start..end]` has the shape of a unified diff.
fn diff_shape(ls: &Vec<Vec<char>>, start: usize, end: usize) -> (r: bool)
    requires
        start <= end <= ls@.len(),
    ensures
        r == is_diff_shape(lines_view(ls@.subrange(start as int, end as int))),
{
    let ghost body = lines_view(ls@.subrange(start as int, end as int));
    assert(body.len() == end - start);
    if end - start < 3 {
        return false;
    }
    let minus = chars_of("---");
    let plus = chars_of("+++");
    if !has_prefix(&ls[start], &minus) || !has_prefix(&ls[start + 1], &plus) {
        assert(body[0] == ls@[start as int]@);
        assert(body[1] == ls@[start + 1]@);
        return false;
    }
    assert(body[0] == ls@[start as int]@);
    assert(body[1] == ls@[start + 1]@);
    let marker = chars_of("@@ -");
    let mut k: usize = start + 2;
    while k < end
        invariant
            start + 2 <= k <= end <= ls@.len(),
            body == lines_view(ls@.subrange(start as int, end as int)),
            marker@ == "@@ -"@,
            body.len() == end - start,
            starts_with(body[0], "---"@),
            starts_with(body[1], "+++"@),
            forall|m: int| 2 <= m < k - start ==> !starts_with(#[trigger] body[m], "@@ -"@),
        decreases end - k,
    {
        assert(body[k - start] == ls@[k as int]@);
        if has_prefix(&ls[k], &marker) {
            assert(starts_with(body[k - start], "@@ -"@));
            return true;
        }
        k += 1;
    }
    false
}

/// The block of the region `ls[start..end]`, as `make_block` states.
fn block_at(ls: &Vec<Vec<char>>, before: Option<&Vec<char>>, start: usize, end: usize) -> (r: Option<ParsedBlock>)
    requires
        start <= end <= ls@.len(),
    ensures
        ({
            let b = match before {
                Some(l) => Some(l@),
                None => None,
            };
            match make_block(b, lines_view(ls@.subrange(start as int, end as int))) {
                Some(m) => r is Some && r->0@ == m,
                None => r is None,
            }
        }),
{
    let ghost body = lines_view(ls@.subrange(start as int, end as int));
    let heading = match before {
        Some(l) => heading_of(l),
        None => None,
    };
    if let Some(h) = heading {
        let name = normalize_chars(&h);
        if name.len() > 0 {
            return Some(make_parsed(name, ls, start, end));
        }
    }
    if start < end {
        assert(body[0] == ls@[start as int]@);
        if let Some(p) = comment_of(&ls[start]) {
            let name = normalize_chars(&p);
            if name.len() > 0 {
                let r = make_parsed(name, ls, start + 1, end);
                assert(lines_view(ls@.subrange(start + 1, end as int)) =~= body.drop_first());
                return Some(r);
            }
        }
    }
    None
}

/// The block named `name` whose payload is `ls[start..end]`.
fn make_parsed(name: Vec<char>, ls: &Vec<Vec<char>>, start: usize, end: usize) -> (r: ParsedBlock)
    requires
        start <= end <= ls@.len(),
    ensures
        r@ == block_of(name@, lines_view(ls@.subrange(start as int, end as int))),
{
    let mut content: Vec<char> = Vec::new();
    join_line_chars(ls, start, end, &mut content);
    assert(content@ =~= join_lines(lines_view(ls@.subrange(start as int, end as int))));
    let diff = diff_shape(ls, start, end);
    ParsedBlock {
        filename: string_of(&name),
        content: string_of(&content),
        block_type: if diff {
            BlockType::UnifiedDiff
        } else {
            BlockType::FullContent
        },
    }
}

/// The index of the first fence line at or after `from`, as `next_fence` states.
fn find_fence(ls: &Vec<Vec<char>>, fence: &Vec<char>, from: usize) -> (r: usize)
    requires
        from <= ls@.len(),
        fence@ == "```"@,
    ensures
        r == next_fence(lines_view(ls@), from as int),
        from <= r <= ls@.len(),
{
    let ghost l = lines_view(ls@);
    let mut j: usize = from;
    while j < ls.len()
        invariant
            from <= j <= ls@.len(),
            l == lines_view(ls@),
            l.len() == ls@.len(),
            fence@ == "```"@,
            next_fence(l, from as int) == next_fence(l, j as int),
        decreases ls@.len() - j,
    {
        assert(l[j as int] == ls@[j as int]@);
        if has_prefix(&ls[j], fence) {
            return j;
        }
        j += 1;
    }
    j
}

/// Extracts the per-file blocks of a text, in document order. Regions without
/// a file name, and an unclosed region at the end, are skipped.
pub fn extract(text: &str) -> (r: Vec<ParsedBlock>)
    ensures
        blocks_view(r@) == extracted(text@),
{
    extract_counting(text).0
}

/// Extracts the per-file blocks of a text, as `extract` does, together with
/// how many fenced regions were skipped, so that callers can warn of them.
pub fn extract_counting(text: &str) -> (r: (Vec<ParsedBlock>, usize))
    ensures
        blocks_view(r.0@) == extracted(text@),
        r.1 == skipped(text@),
{
    let t = chars_of(text);
    let ls = split_lines(&t);
    let ghost l = lines_view(ls@);
    let mut out: Vec<ParsedBlock> = Vec::new();
    let mut dropped: usize = 0;
    let mut i: usize = 0;
    let fence = chars_of("```");
    while i < ls.len()
        invariant
            i <= ls@.len(),
            l == lines_view(ls@),
            l.len() == ls@.len(),
            l == lines_of(text@),
            fence@ == "```"@,
            extract_from(l, 0) == blocks_view(out@) + extract_from(l, i as int),
            skipped_from(l, 0) == dropped + skipped_from(l, i as int),
            dropped <= i,
        decreases ls@.len() - i,
    {
        assert(l[i as int] == ls@[i as int]@);
        if !has_prefix(&ls[i], &fence) {
            i += 1;
            continue;
        }
        let j = find_fence(&ls, &fence, i + 1);
        if j >= ls.len() {
            i = ls.len();
            dropped += 1;
            continue;
        }
        let before = if i > 0 {
            Some(&ls[i - 1])
        } else {
            None
        };
        proof {
            if i > 0 {
                assert(l[i - 1] == ls@[i - 1]@);
            }
        }
        let b = block_at(&ls, before, i + 1, j);
        proof {
            assert(lines_view(ls@.subrange(i + 1, j as int)) =~= l.subrange(i + 1, j as int));
        }
        let ghost old_out = out@;
        match b {
            Some(pb) => {
                out.push(pb);
                assert(blocks_view(out@) =~= blocks_view(old_out).push(pb@));
            },
            None => {
                dropped += 1;
            },
        }
        i = j + 1;
    }
    assert(extract_from(l, i as int) == Seq::<BlockModel>::empty());
    assert(blocks_view(out@) + Seq::<BlockModel>::empty() =~= blocks_view(out@));
    (out, dropped)
}

/// The line just before line `i`, if any.
pub open spec fn line_before(ls: Seq<Seq<char>>, i: int) -> Option<Seq<char>> {
    if i > 0 {
        Some(ls[i - 1])
    } else {
        None
    }
}

/// A fenced region from which no file name can be recovered is dropped:
/// extraction yields exactly the blocks that follow it, one fewer than if the
/// region had been named, and goes on without failing.
pub proof fn nameless_region_dropped(ls: Seq<Seq<char>>, i: int)
    requires
        0 <= i < ls.len(),
        is_fence(ls[i]),
        next_fence(ls, i + 1) < ls.len(),
        make_block(line_before(ls, i), ls.subrange(i + 1, next_fence(ls, i + 1))) is None,
    ensures
        extract_from(ls, i) == extract_from(ls, next_fence(ls, i + 1) + 1),
        skipped_from(ls, i) == skipped_from(ls, next_fence(ls, i + 1) + 1) + 1,
{
    lemma_next_fence_after(ls, i + 1);
}

/// A closed fenced region with a file name gives exactly one block, followed
/// by the blocks after it.
pub proof fn named_region_kept(ls: Seq<Seq<char>>, i: int)
    requires
        0 <= i < ls.len(),
        is_fence(ls[i]),
        next_fence(ls, i + 1) < ls.len(),
        make_block(line_before(ls, i), ls.subrange(i + 1, next_fence(ls, i + 1))) is Some,
    ensures
        extract_from(ls, i) == seq![
            make_block(line_before(ls, i), ls.subrange(i + 1, next_fence(ls, i + 1)))->0,
        ] + extract_from(ls, next_fence(ls, i + 1) + 1),
{
    lemma_next_fence_after(ls, i + 1);
}

proof fn lemma_next_fence_after(ls: Seq<Seq<char>>, k: int)
    requires
        0 <= k <= ls.len(),
    ensures
        k <= next_fence(ls, k),
    decreases ls.len() - k,
{
    if k < ls.len() && !is_fence(ls[k]) {
        lemma_next_fence_after(ls, k + 1);
    }
}

/// A fenced region naming its file on a `//` first line, around `body`.
pub open spec fn annotated_region(name: Seq<char>, body: Seq<Seq<char>>) -> Seq<Seq<char>> {
    seq!["```"@, "// filename: "@ + name] + body + seq!["```"@]
}

/// The annotated regions for the names and bodies, one after another.
pub open spec fn regions(names: Seq<Seq<char>>, bodies: Seq<Seq<Seq<char>>>) -> Seq<Seq<char>>
    decreases names.len(),
{
    if names.len() == 0 {
        Seq::empty()
    } else {
        annotated_region(names[0], bodies[0]) + regions(names.drop_first(), bodies.drop_first())
    }
}

/// The blocks that the annotated regions stand for, in the same order.
pub open spec fn region_blocks(names: Seq<Seq<char>>, bodies: Seq<Seq<Seq<char>>>) -> Seq<BlockModel>
    decreases names.len(),
{
    if names.len() == 0 {
        Seq::empty()
    } else {
        seq![block_of(normalized(unquoted(names[0])), bodies[0])] + region_blocks(
            names.drop_first(),
            bodies.drop_first(),
        )
    }
}

/// One body per name, each name non-empty once normalised, and no fence
/// line inside a body.
pub open spec fn independent_regions(names: Seq<Seq<char>>, bodies: Seq<Seq<Seq<char>>>) -> bool {
    &&& names.len() == bodies.len()
    &&& forall|k: int| 0 <= k < names.len() ==> normalized(unquoted(#[trigger] names[k])).len() > 0
    &&& forall|k: int, m: int|
        0 <= k < bodies.len() && 0 <= m < bodies[k].len() ==> !is_fence(#[trigger] bodies[k][m])
}

proof fn lemma_next_fence_skips(ls: Seq<Seq<char>>, k: int, j: int)
    requires
        0 <= k <= j < ls.len(),
        is_fence(ls[j]),
        forall|m: int| k <= m < j ==> !is_fence(#[trigger] ls[m]),
    ensures
        next_fence(ls, k) == j,
    decreases j - k,
{
    if k < j {
        lemma_next_fence_skips(ls, k + 1, j);
    }
}

proof fn lemma_regions_after(
    pre: Seq<Seq<char>>,
    names: Seq<Seq<char>>,
    bodies: Seq<Seq<Seq<char>>>,
)
    requires
        independent_regions(names, bodies),
        pre.len() == 0 || pre.last() == "```"@,
    ensures
        extract_from(pre + regions(names, bodies), pre.len() as int) == region_blocks(names, bodies),
    decreases names.len(),
{
    reveal_strlit("```");
    reveal_strlit("// filename: ");
    reveal_strlit("### `");
    reveal_strlit("");
    let ls = pre + regions(names, bodies);
    let i = pre.len() as int;
    if names.len() == 0 {
        assert(ls =~= pre);
    } else {
        let name = names[0];
        let body = bodies[0];
        let region = annotated_region(name, body);
        let rest_names = names.drop_first();
        let rest_bodies = bodies.drop_first();
        let pre2 = pre + region;
        assert(ls =~= pre2 + regions(rest_names, rest_bodies));
        let comment = "// filename: "@ + name;
        let j = i + 2 + body.len();
        assert(ls[i] == "```"@);
        assert(ls[i + 1] == comment);
        assert(ls[j] == "```"@);
        assert(is_fence(ls[i])) by {
            assert(ls[i].subrange(0, 3) =~= "```"@);
        }
        assert(is_fence(ls[j])) by {
            assert(ls[j].subrange(0, 3) =~= "```"@);
        }
        assert(!is_fence(comment)) by {
            assert(comment[0] == '/');
            assert(comment.subrange(0, 3)[0] == '/');
            assert("```"@[0] == '`');
        }
        assert forall|m: int| i + 1 <= m < j implies !is_fence(#[trigger] ls[m]) by {
            if m > i + 1 {
                assert(ls[m] == body[m - i - 2]);
                assert(!is_fence(bodies[0][m - i - 2]));
            }
        }
        lemma_next_fence_skips(ls, i + 1, j);
        assert(ls.subrange(i + 1, j) =~= seq![comment] + body);
        assert(comment.subrange(0, "// filename: "@.len() as int) =~= "// filename: "@);
        assert(comment.subrange(comment.len() - 0, comment.len() as int) =~= ""@);
        assert(comment.subrange("// filename: "@.len() as int, comment.len() - 0) =~= name);
        assert(comment_path(comment) == Some(unquoted(name)));
        assert(normalized(unquoted(names[0])).len() > 0);
        if i > 0 {
            assert(ls[i - 1] == pre.last());
            assert(heading_path(ls[i - 1]) is None);
        }
        assert((seq![comment] + body).drop_first() =~= body);
        assert(pre2.len() == j + 1);
        assert(pre2.last() == "```"@);
        assert forall|k: int| 0 <= k < rest_names.len() implies normalized(
            unquoted(#[trigger] rest_names[k]),
        ).len() > 0 by {
            assert(rest_names[k] == names[k + 1]);
        }
        assert forall|k: int, m: int|
            0 <= k < rest_bodies.len() && 0 <= m < rest_bodies[k].len() implies !is_fence(
            #[trigger] rest_bodies[k][m],
        ) by {
            assert(rest_bodies[k] == bodies[k + 1]);
        }
        lemma_regions_after(pre2, rest_names, rest_bodies);
    }
}

/// Extracting N independent annotated regions yields exactly N blocks, in
/// the order of the regions, each named and filled by its own region.
pub proof fn independent_regions_extracted(names: Seq<Seq<char>>, bodies: Seq<Seq<Seq<char>>>)
    requires
        independent_regions(names, bodies),
    ensures
        extract_from(regions(names, bodies), 0) == region_blocks(names, bodies),
        region_blocks(names, bodies).len() == names.len(),
        forall|k: int|
            0 <= k < names.len() ==> #[trigger] region_blocks(names, bodies)[k] == block_of(
                normalized(unquoted(names[k])),
                bodies[k],
            ),
{
    lemma_regions_after(Seq::empty(), names, bodies);
    assert(Seq::<Seq<char>>::empty() + regions(names, bodies) =~= regions(names, bodies));
    lemma_region_blocks_index(names, bodies);
}

proof fn lemma_region_blocks_index(names: Seq<Seq<char>>, bodies: Seq<Seq<Seq<char>>>)
    requires
        names.len() == bodies.len(),
    ensures
        region_blocks(names, bodies).len() == names.len(),
        forall|k: int|
            0 <= k < names.len() ==> #[trigger] region_blocks(names, bodies)[k] == block_of(
                normalized(unquoted(names[k])),
                bodies[k],
            ),
    decreases names.len(),
{
    if names.len() > 0 {
        lemma_region_blocks_index(names.drop_first(), bodies.drop_first());
        assert forall|k: int| 0 <= k < names.len() implies #[trigger] region_blocks(names, bodies)[k]
            == block_of(normalized(unquoted(names[k])), bodies[k]) by {
            if k > 0 {
                assert(names.drop_first()[k - 1] == names[k]);
                assert(bodies.drop_first()[k - 1] == bodies[k]);
            }
        }
    }
}

/// Whether every name and body line splits back unchanged.
pub open spec fn plain_regions(names: Seq<Seq<char>>, bodies: Seq<Seq<Seq<char>>>) -> bool {
    &&& forall|k: int| 0 <= k < names.len() ==> plain_line("// filename: "@ + #[trigger] names[k])
    &&& forall|k: int, m: int|
        0 <= k < bodies.len() && 0 <= m < bodies[k].len() ==> plain_line(#[trigger] bodies[k][m])
}

proof fn lemma_regions_plain(names: Seq<Seq<char>>, bodies: Seq<Seq<Seq<char>>>)
    requires
        names.len() == bodies.len(),
        plain_regions(names, bodies),
    ensures
        forall|k: int| 0 <= k < regions(names, bodies).len() ==> plain_line(#[trigger] regions(names, bodies)[k]),
    decreases names.len(),
{
    reveal_strlit("```");
    if names.len() > 0 {
        let rn = names.drop_first();
        let rb = bodies.drop_first();
        assert forall|k: int| 0 <= k < rn.len() implies plain_line("// filename: "@ + #[trigger] rn[k]) by {
            assert(rn[k] == names[k + 1]);
        }
        assert forall|k: int, m: int| 0 <= k < rb.len() && 0 <= m < rb[k].len() implies plain_line(
            #[trigger] rb[k][m],
        ) by {
            assert(rb[k] == bodies[k + 1]);
        }
        lemma_regions_plain(rn, rb);
        let region = annotated_region(names[0], bodies[0]);
        let all = regions(names, bodies);
        assert(plain_line("// filename: "@ + names[0]));
        assert(plain_line("```"@));
        assert forall|k: int| 0 <= k < all.len() implies plain_line(#[trigger] all[k]) by {
            if k >= region.len() {
                assert(all[k] == regions(rn, rb)[k - region.len()]);
            } else if k >= 2 && k < 2 + bodies[0].len() {
                assert(all[k] == bodies[0][k - 2]);
            }
        }
    }
}

/// Extracting the text of N independent annotated regions yields exactly N
/// blocks, in the order of the regions.
pub proof fn independent_regions_extracted_from_text(names: Seq<Seq<char>>, bodies: Seq<Seq<Seq<char>>>)
    requires
        independent_regions(names, bodies),
        plain_regions(names, bodies),
    ensures
        extracted(join_lines(regions(names, bodies))) == region_blocks(names, bodies),
        extracted(join_lines(regions(names, bodies))).len() == names.len(),
{
    lemma_regions_plain(names, bodies);
    lemma_lines_of_join(regions(names, bodies));
    independent_regions_extracted(names, bodies);
}

/// A fenced region around `body`, naming its file on a `//` first line when
/// a name is given, and bare otherwise.
pub open spec fn optional_region(name: Option<Seq<char>>, body: Seq<Seq<char>>) -> Seq<Seq<char>> {
    match name {
        Some(n) => annotated_region(n, body),
        None => seq!["```"@] + body + seq!["```"@],
    }
}

/// The regions for the optional names and bodies, one after another.
pub open spec fn optional_regions(names: Seq<Option<Seq<char>>>, bodies: Seq<Seq<Seq<char>>>) -> Seq<Seq<char>>
    decreases names.len(),
{
    if names.len() == 0 {
        Seq::empty()
    } else {
        optional_region(names[0], bodies[0]) + optional_regions(names.drop_first(), bodies.drop_first())
    }
}

/// The blocks of the named regions, in order.
pub open spec fn named_blocks(names: Seq<Option<Seq<char>>>, bodies: Seq<Seq<Seq<char>>>) -> Seq<BlockModel>
    decreases names.len(),
{
    if names.len() == 0 {
        Seq::empty()
    } else {
        let rest = named_blocks(names.drop_first(), bodies.drop_first());
        match names[0] {
            Some(n) => seq![block_of(normalized(unquoted(n)), bodies[0])] + rest,
            None => rest,
        }
    }
}

/// How many regions are nameless.
pub open spec fn nameless_count(names: Seq<Option<Seq<char>>>) -> nat
    decreases names.len(),
{
    if names.len() == 0 {
        0
    } else {
        nameless_count(names.drop_first()) + if names[0] is None {
            1nat
        } else {
            0nat
        }
    }
}

/// One body per region; a name, when given, is non-empty once normalised; a
/// nameless region's first line names no file; no fence line in a body.
pub open spec fn well_formed_regions(names: Seq<Option<Seq<char>>>, bodies: Seq<Seq<Seq<char>>>) -> bool {
    &&& names.len() == bodies.len()
    &&& forall|k: int|
        0 <= k < names.len() ==> match #[trigger] names[k] {
            Some(n) => normalized(unquoted(n)).len() > 0,
            None => bodies[k].len() == 0 || comment_path(bodies[k][0]) is None,
        }
    &&& forall|k: int, m: int|
        0 <= k < bodies.len() && 0 <= m < bodies[k].len() ==> !is_fence(#[trigger] bodies[k][m])
}

proof fn lemma_well_formed_tail(names: Seq<Option<Seq<char>>>, bodies: Seq<Seq<Seq<char>>>)
    requires
        well_formed_regions(names, bodies),
        names.len() > 0,
    ensures
        well_formed_regions(names.drop_first(), bodies.drop_first()),
{
    let rest_names = names.drop_first();
    let rest_bodies = bodies.drop_first();
    assert forall|k: int| 0 <= k < rest_names.len() implies match #[trigger] rest_names[k] {
        Some(n) => normalized(unquoted(n)).len() > 0,
        None => rest_bodies[k].len() == 0 || comment_path(rest_bodies[k][0]) is None,
    } by {
        assert(rest_names[k] == names[k + 1]);
        assert(rest_bodies[k] == bodies[k + 1]);
    }
    assert forall|k: int, m: int|
        0 <= k < rest_bodies.len() && 0 <= m < rest_bodies[k].len() implies !is_fence(
        #[trigger] rest_bodies[k][m],
    ) by {
        assert(rest_bodies[k] == bodies[k + 1]);
    }
}

#[verifier::rlimit(50)]
proof fn lemma_optional_regions_after(
    pre: Seq<Seq<char>>,
    names: Seq<Option<Seq<char>>>,
    bodies: Seq<Seq<Seq<char>>>,
)
    requires
        well_formed_regions(names, bodies),
        pre.len() == 0 || pre.last() == "```"@,
    ensures
        extract_from(pre + optional_regions(names, bodies), pre.len() as int) == named_blocks(names, bodies),
        skipped_from(pre + optional_regions(names, bodies), pre.len() as int) == nameless_count(names),
    decreases names.len(),
{
    reveal_strlit("```");
    reveal_strlit("// filename: ");
    reveal_strlit("### `");
    reveal_strlit("");
    let ls = pre + optional_regions(names, bodies);
    let i = pre.len() as int;
    if names.len() == 0 {
        assert(ls =~= pre);
    } else {
        let body = bodies[0];
        let region = optional_region(names[0], body);
        let rest_names = names.drop_first();
        let rest_bodies = bodies.drop_first();
        let pre2 = pre + region;
        assert(ls =~= pre2 + optional_regions(rest_names, rest_bodies));
        let head: int = if names[0] is Some { 2 } else { 1 };
        let j = i + head + body.len();
        assert(ls[i] == "```"@);
        assert(ls[j] == "```"@);
        assert(is_fence(ls[i])) by {
            assert(ls[i].subrange(0, 3) =~= "```"@);
        }
        assert(is_fence(ls[j])) by {
            assert(ls[j].subrange(0, 3) =~= "```"@);
        }
        if i > 0 {
            assert(ls[i - 1] == pre.last());
            assert(heading_path(ls[i - 1]) is None);
        }
        match names[0] {
            Some(name) => {
                let comment = "// filename: "@ + name;
                assert(ls[i + 1] == comment);
                assert(!is_fence(comment)) by {
                    assert(comment.subrange(0, 3)[0] == '/');
                    assert("```"@[0] == '`');
                }
                assert forall|m: int| i + 1 <= m < j implies !is_fence(#[trigger] ls[m]) by {
                    if m > i + 1 {
                        assert(ls[m] == body[m - i - 2]);
                        assert(!is_fence(bodies[0][m - i - 2]));
                    }
                }
                lemma_next_fence_skips(ls, i + 1, j);
                assert(ls.subrange(i + 1, j) =~= seq![comment] + body);
                assert(comment.subrange(0, "// filename: "@.len() as int) =~= "// filename: "@);
                assert(comment.subrange(comment.len() - 0, comment.len() as int) =~= ""@);
                assert(comment.subrange("// filename: "@.len() as int, comment.len() - 0) =~= name);
                assert(comment_path(comment) == Some(unquoted(name)));
                assert((seq![comment] + body).drop_first() =~= body);
            },
            None => {
                assert forall|m: int| i + 1 <= m < j implies !is_fence(#[trigger] ls[m]) by {
                    assert(ls[m] == body[m - i - 1]);
                    assert(!is_fence(bodies[0][m - i - 1]));
                }
                lemma_next_fence_skips(ls, i + 1, j);
                assert(ls.subrange(i + 1, j) =~= body);
                if body.len() > 0 {
                    assert(comment_path(bodies[0][0]) is None);
                }
            },
        }
        assert(pre2.len() == j + 1);
        assert(pre2.last() == "```"@);
        lemma_well_formed_tail(names, bodies);
        lemma_optional_regions_after(pre2, rest_names, rest_bodies);
    }
}

proof fn lemma_named_and_nameless(names: Seq<Option<Seq<char>>>, bodies: Seq<Seq<Seq<char>>>)
    ensures
        named_blocks(names, bodies).len() + nameless_count(names) == names.len(),
    decreases names.len(),
{
    if names.len() > 0 {
        lemma_named_and_nameless(names.drop_first(), bodies.drop_first());
    }
}

/// Nameless fenced regions among named ones are dropped: extraction yields
/// exactly the blocks of the named regions, in order, reports each nameless
/// region as skipped, and so accounts for every region, one block fewer for
/// each nameless one.
pub proof fn nameless_regions_dropped(names: Seq<Option<Seq<char>>>, bodies: Seq<Seq<Seq<char>>>)
    requires
        well_formed_regions(names, bodies),
    ensures
        extract_from(optional_regions(names, bodies), 0) == named_blocks(names, bodies),
        skipped_from(optional_regions(names, bodies), 0) == nameless_count(names),
        named_blocks(names, bodies).len() + nameless_count(names) == names.len(),
{
    lemma_optional_regions_after(Seq::empty(), names, bodies);
    assert(Seq::<Seq<char>>::empty() + optional_regions(names, bodies) =~= optional_regions(names, bodies));
    lemma_named_and_nameless(names, bodies);
}

} // verus!
