//! Unified diffs: parsing into hunks, and applying hunks to a line buffer.
use vstd::prelude::*;
use crate::text::{chars_of, has_prefix, lines_view, same_chars, slice_chars, starts_with};

verus! {

/// The largest line number or count that a hunk header may hold.
pub const MAX_LINE_NUMBER: u64 = 1_000_000_000;

/// How many lines before or after its expected place a hunk is looked for
/// when it does not match there.
pub const FUZZ_LINES: usize = 3;

/// The role of one line of a hunk.
#[derive(Clone, Copy, Debug, PartialEq, Eq, Structural)]
pub enum LineTag {
    Context,
    Addition,
    Removal,
}

/// One line of a hunk: its role and its text.
#[derive(Debug)]
pub struct DiffLine {
    pub tag: LineTag,
    pub text: Vec<char>,
}

/// One contiguous edit region of a unified diff.
#[derive(Debug)]
pub struct DiffHunk {
    pub old_start: usize,
    pub old_count: usize,
    pub new_start: usize,
    pub new_count: usize,
    pub lines: Vec<DiffLine>,
}

/// The value of a `DiffHunk`.
pub struct HunkModel {
    pub old_start: nat,
    pub old_count: nat,
    pub new_start: nat,
    pub new_count: nat,
    pub lines: Seq<(LineTag, Seq<char>)>,
}

pub open spec fn line_view(d: DiffLine) -> (LineTag, Seq<char>) {
    (d.tag, d.text@)
}

pub open spec fn hunk_view(h: DiffHunk) -> HunkModel {
    HunkModel {
        old_start: h.old_start as nat,
        old_count: h.old_count as nat,
        new_start: h.new_start as nat,
        new_count: h.new_count as nat,
        lines: h.lines@.map_values(|d: DiffLine| line_view(d)),
    }
}

pub open spec fn hunks_view(hs: Seq<DiffHunk>) -> Seq<HunkModel> {
    hs.map_values(|h: DiffHunk| hunk_view(h))
}

/// The pre-image lines of a hunk: its context and removal lines.
pub open spec fn old_side(e: Seq<(LineTag, Seq<char>)>) -> Seq<Seq<char>>
    decreases e.len(),
{
    if e.len() == 0 {
        Seq::empty()
    } else if e.last().0 != LineTag::Addition {
        old_side(e.drop_last()).push(e.last().1)
    } else {
        old_side(e.drop_last())
    }
}

/// The post-image lines of a hunk: its context and addition lines.
pub open spec fn new_side(e: Seq<(LineTag, Seq<char>)>) -> Seq<Seq<char>>
    decreases e.len(),
{
    if e.len() == 0 {
        Seq::empty()
    } else if e.last().0 != LineTag::Removal {
        new_side(e.drop_last()).push(e.last().1)
    } else {
        new_side(e.drop_last())
    }
}

pub open spec fn is_digit(c: char) -> bool {
    '0' <= c && c <= '9'
}

/// The value of a sequence of decimal digits.
pub open spec fn digits_value(s: Seq<char>) -> nat
    decreases s.len(),
{
    if s.len() == 0 {
        0
    } else {
        digits_value(s.drop_last()) * 10 + (s.last() as nat - '0' as nat) as nat
    }
}

/// The end of the run of digits that starts at `i`.
pub open spec fn digit_end(l: Seq<char>, i: int) -> int
    decreases l.len() - i,
{
    if 0 <= i < l.len() && is_digit(l[i]) {
        digit_end(l, i + 1)
    } else {
        i
    }
}

/// The number written at `i`, and where it ends: at least one digit, and a
/// value of at most `MAX_LINE_NUMBER`.
pub open spec fn number_at(l: Seq<char>, i: int) -> Option<(nat, int)> {
    let e = digit_end(l, i);
    if 0 <= i < e && digits_value(l.subrange(i, e)) <= MAX_LINE_NUMBER {
        Some((digits_value(l.subrange(i, e)), e))
    } else {
        None
    }
}

/// The count `,<n>` written at `i`, which is 1 when left out.
pub open spec fn count_at(l: Seq<char>, i: int) -> Option<(nat, int)> {
    if 0 <= i < l.len() && l[i] == ',' {
        number_at(l, i + 1)
    } else {
        Some((1, i))
    }
}

/// Whether `p` is written in `l` at `i`.
pub open spec fn written_at(l: Seq<char>, i: int, p: Seq<char>) -> bool {
    0 <= i <= l.len() && starts_with(l.subrange(i, l.len() as int), p)
}

/// The ranges of a hunk header `@@ -<a>[,<b>] +<c>[,<d>] @@`.
pub open spec fn header_of(l: Seq<char>) -> Option<(nat, nat, nat, nat)> {
    if !starts_with(l, "@@ -"@) {
        None
    } else {
        match number_at(l, "@@ -"@.len() as int) {
            None => None,
            Some((a, e1)) => match count_at(l, e1) {
                None => None,
                Some((b, e2)) => if !written_at(l, e2, " +"@) {
                    None
                } else {
                    match number_at(l, e2 + " +"@.len()) {
                        None => None,
                        Some((c, e3)) => match count_at(l, e3) {
                            None => None,
                            Some((d, e4)) => if written_at(l, e4, " @@"@) {
                                Some((a, b, c, d))
                            } else {
                                None
                            },
                        },
                    }
                },
            },
        }
    }
}

/// A body line of a hunk: `Some(Some(..))` for an edit line, `Some(None)` for
/// a `\` marker line, which carries nothing, and `None` for anything else.
/// An empty line is an empty context line.
pub open spec fn edit_of(l: Seq<char>) -> Option<Option<(LineTag, Seq<char>)>> {
    if l.len() == 0 {
        Some(Some((LineTag::Context, Seq::empty())))
    } else if l[0] == ' ' {
        Some(Some((LineTag::Context, l.drop_first())))
    } else if l[0] == '+' {
        Some(Some((LineTag::Addition, l.drop_first())))
    } else if l[0] == '-' {
        Some(Some((LineTag::Removal, l.drop_first())))
    } else if l[0] == '\\' {
        Some(None)
    } else {
        None
    }
}

/// The edit lines of a hunk body, or `None` if a line is not a body line.
pub open spec fn body_edits(b: Seq<Seq<char>>) -> Option<Seq<(LineTag, Seq<char>)>>
    decreases b.len(),
{
    if b.len() == 0 {
        Some(Seq::empty())
    } else {
        match body_edits(b.drop_last()) {
            None => None,
            Some(es) => match edit_of(b.last()) {
                None => None,
                Some(None) => Some(es),
                Some(Some(e)) => Some(es.push(e)),
            },
        }
    }
}

/// Whether a line starts a new hunk.
pub open spec fn is_hunk_start(l: Seq<char>) -> bool {
    starts_with(l, "@@"@)
}

/// The index of the first hunk-start line at or after `k` (the length if none).
pub open spec fn next_hunk_start(ls: Seq<Seq<char>>, k: int) -> int
    decreases ls.len() - k,
{
    if k >= ls.len() {
        ls.len() as int
    } else if is_hunk_start(ls[k]) {
        k
    } else {
        next_hunk_start(ls, k + 1)
    }
}

/// The hunks written from line `i` on, each a header and the body lines up to
/// the next header; `None` on a malformed header or body, or on a count that
/// does not match the body.
pub open spec fn parse_hunks(ls: Seq<Seq<char>>, i: int) -> Option<Seq<HunkModel>>
    decreases ls.len() - i,
{
    if i < 0 || i >= ls.len() {
        Some(Seq::empty())
    } else {
        match header_of(ls[i]) {
            None => None,
            Some((a, b, c, d)) => {
                let j = next_hunk_start(ls, i + 1);
                if j <= i || j > ls.len() {
                    None
                } else {
                    match body_edits(ls.subrange(i + 1, j)) {
                        None => None,
                        Some(es) => if old_side(es).len() == b && new_side(es).len() == d {
                            match parse_hunks(ls, j) {
                                None => None,
                                Some(rest) => Some(
                                    seq![HunkModel { old_start: a, old_count: b, new_start: c, new_count: d, lines: es }]
                                        + rest,
                                ),
                            }
                        } else {
                            None
                        },
                    }
                }
            },
        }
    }
}

/// Whether the hunks come by ascending pre-image start.
pub open spec fn ascending(hs: Seq<HunkModel>) -> bool {
    forall|k: int| 0 < k < hs.len() ==> hs[k - 1].old_start <= #[trigger] hs[k].old_start
}

/// Whether the hunks come by ascending pre-image start.
fn is_ascending(out: &Vec<DiffHunk>) -> (r: bool)
    ensures
        r == ascending(hunks_view(out@)),
{
    let mut k: usize = 1;
    while k < out.len()
        invariant
            1 <= k <= out@.len() || out@.len() == 0,
            forall|m: int| 0 < m < k ==> hunks_view(out@)[m - 1].old_start <= #[trigger] hunks_view(out@)[m].old_start,
        decreases out@.len() - k,
    {
        if out[k - 1].old_start > out[k].old_start {
            assert(hunks_view(out@)[k as int].old_start == out@[k as int].old_start);
            assert(hunks_view(out@)[k - 1].old_start == out@[k - 1].old_start);
            assert(!ascending(hunks_view(out@)));
            return false;
        }
        k += 1;
    }
    true
}

/// The hunks of a unified diff given as lines: a `---` line, a `+++` line,
/// then at least one hunk, by ascending pre-image start. `None` if malformed.
pub open spec fn parse_diff(ls: Seq<Seq<char>>) -> Option<Seq<HunkModel>> {
    if ls.len() >= 2 && starts_with(ls[0], "---"@) && starts_with(ls[1], "+++"@) {
        match parse_hunks(ls, 2) {
            Some(hs) => if hs.len() > 0 && ascending(hs) {
                Some(hs)
            } else {
                None
            },
            None => None,
        }
    } else {
        None
    }
}

/// Whether `old` stands in `buf` at line index `p`.
pub open spec fn matches_at(buf: Seq<Seq<char>>, old: Seq<Seq<char>>, p: int) -> bool {
    0 <= p && p + old.len() <= buf.len() && buf.subrange(p, p + old.len()) == old
}

/// The nearest place within `FUZZ_LINES` of `exp`, from distance `d` on,
/// where `old` stands; the earlier of two at equal distance.
pub open spec fn search_near(buf: Seq<Seq<char>>, old: Seq<Seq<char>>, exp: int, d: int) -> Option<int>
    decreases FUZZ_LINES + 1 - d,
{
    if d < 1 || d > FUZZ_LINES {
        None
    } else if matches_at(buf, old, exp - d) {
        Some(exp - d)
    } else if matches_at(buf, old, exp + d) {
        Some(exp + d)
    } else {
        search_near(buf, old, exp, d + 1)
    }
}

/// Where a hunk whose pre-image is `old` applies: at `exp` if it matches
/// there, else at the nearest match within the window.
pub open spec fn locate(buf: Seq<Seq<char>>, old: Seq<Seq<char>>, exp: int) -> Option<int> {
    if matches_at(buf, old, exp) {
        Some(exp)
    } else {
        search_near(buf, old, exp, 1)
    }
}

/// The line index at which a hunk is expected before any offset: after line
/// `old_start` for an empty pre-image, at line `old_start` otherwise.
pub open spec fn expected_index(h: HunkModel) -> int {
    if h.old_count == 0 {
        h.old_start as int
    } else {
        h.old_start - 1
    }
}

/// `buf` with the `n` lines at `p` replaced by `new`.
pub open spec fn splice(buf: Seq<Seq<char>>, p: int, n: int, new: Seq<Seq<char>>) -> Seq<Seq<char>> {
    buf.subrange(0, p) + new + buf.subrange(p + n, buf.len() as int)
}

/// The buffer after applying the hunks in order, each located at its
/// expected index plus the running offset (the net lines added by the hunks
/// before it); `None` if some hunk cannot be located.
pub open spec fn apply_hunks(buf: Seq<Seq<char>>, hs: Seq<HunkModel>, offset: int) -> Option<
    Seq<Seq<char>>,
>
    decreases hs.len(),
{
    if hs.len() == 0 {
        Some(buf)
    } else {
        let old = old_side(hs[0].lines);
        let new = new_side(hs[0].lines);
        match locate(buf, old, expected_index(hs[0]) + offset) {
            None => None,
            Some(p) => apply_hunks(
                splice(buf, p, old.len() as int, new),
                hs.drop_first(),
                offset + new.len() - old.len(),
            ),
        }
    }
}

/// The hunks parsed so far followed by those that `rest` holds.
pub open spec fn prepend(done: Seq<HunkModel>, rest: Option<Seq<HunkModel>>) -> Option<Seq<HunkModel>> {
    match rest {
        Some(r) => Some(done + r),
        None => None,
    }
}

/// A malformed line makes every longer body malformed.
proof fn lemma_body_malformed(b: Seq<Seq<char>>, n: int)
    requires
        0 <= n <= b.len(),
        body_edits(b.subrange(0, n)) is None,
    ensures
        body_edits(b) is None,
    decreases b.len() - n,
{
    if n < b.len() {
        assert(b.subrange(0, n + 1).drop_last() =~= b.subrange(0, n));
        lemma_body_malformed(b, n + 1);
    } else {
        assert(b.subrange(0, n) =~= b);
    }
}

/// The number written at `i`, as `number_at` states.
fn parse_number(l: &Vec<char>, i: usize) -> (r: Option<(usize, usize)>)
    ensures
        match number_at(l@, i as int) {
            Some((v, e)) => r matches Some((x, y)) && x == v && y == e,
            None => r is None,
        },
{
    if i > l.len() {
        return None;
    }
    let mut k: usize = i;
    let mut value: u64 = 0;
    let mut over = false;
    while k < l.len() && '0' <= l[k] && l[k] <= '9'
        invariant
            i <= k <= l@.len(),
            digit_end(l@, i as int) == digit_end(l@, k as int),
            !over ==> value == digits_value(l@.subrange(i as int, k as int)) && value <= MAX_LINE_NUMBER,
            over ==> digits_value(l@.subrange(i as int, k as int)) > MAX_LINE_NUMBER,
        decreases l@.len() - k,
    {
        let ghost prev = digits_value(l@.subrange(i as int, k as int));
        assert(l@.subrange(i as int, k + 1).drop_last() =~= l@.subrange(i as int, k as int));
        let d = (l[k] as u32 - '0' as u32) as u64;
        if !over {
            value = value * 10 + d;
            if value > MAX_LINE_NUMBER {
                over = true;
            }
        }
        k += 1;
    }
    if k == i || over {
        None
    } else {
        Some((value as usize, k))
    }
}

/// The count written at `i`, as `count_at` states.
fn parse_count(l: &Vec<char>, i: usize) -> (r: Option<(usize, usize)>)
    ensures
        match count_at(l@, i as int) {
            Some((v, e)) => r matches Some((x, y)) && x == v && y == e,
            None => r is None,
        },
{
    if i < l.len() && l[i] == ',' {
        parse_number(l, i + 1)
    } else {
        Some((1, i))
    }
}

/// Whether `p` is written in `l` at `i`, as `written_at` states.
fn is_written_at(l: &Vec<char>, i: usize, p: &str) -> (r: bool)
    ensures
        r == written_at(l@, i as int, p@),
{
    if i > l.len() {
        return false;
    }
    let rest = slice_chars(l, i, l.len());
    let pc = chars_of(p);
    has_prefix(&rest, &pc)
}

/// The ranges of a hunk header, as `header_of` states.
fn parse_header(l: &Vec<char>) -> (r: Option<(usize, usize, usize, usize)>)
    ensures
        match header_of(l@) {
            Some((a, b, c, d)) => r matches Some((w, x, y, z)) && w == a && x == b && y == c && z
                == d,
            None => r is None,
        },
{
    let start = chars_of("@@ -");
    if !has_prefix(l, &start) {
        return None;
    }
    let (a, e1) = match parse_number(l, start.len()) {
        Some(x) => x,
        None => return None,
    };
    let (b, e2) = match parse_count(l, e1) {
        Some(x) => x,
        None => return None,
    };
    if !is_written_at(l, e2, " +") {
        return None;
    }
    let plus = chars_of(" +");
    if e2 > l.len() {
        return None;
    }
    let (c, e3) = match parse_number(l, e2 + plus.len()) {
        Some(x) => x,
        None => return None,
    };
    let (d, e4) = match parse_count(l, e3) {
        Some(x) => x,
        None => return None,
    };
    if is_written_at(l, e4, " @@") {
        Some((a, b, c, d))
    } else {
        None
    }
}

/// A hunk body line, as `edit_of` states.
fn parse_edit(l: &Vec<char>) -> (r: Option<Option<DiffLine>>)
    ensures
        match edit_of(l@) {
            Some(Some(e)) => r is Some && r->0 is Some && line_view(r->0->0) == e,
            Some(None) => r == Some(None::<DiffLine>),
            None => r is None,
        },
{
    if l.len() == 0 {
        return Some(Some(DiffLine { tag: LineTag::Context, text: Vec::new() }));
    }
    let c = l[0];
    let tag = if c == ' ' {
        LineTag::Context
    } else if c == '+' {
        LineTag::Addition
    } else if c == '-' {
        LineTag::Removal
    } else if c == '\\' {
        return Some(None);
    } else {
        return None;
    };
    let text = slice_chars(l, 1, l.len());
    assert(text@ =~= l@.drop_first());
    Some(Some(DiffLine { tag, text }))
}

/// The edit lines of the body `ls[start..end]`, as `body_edits` states.
fn parse_body(ls: &Vec<Vec<char>>, start: usize, end: usize) -> (r: Option<Vec<DiffLine>>)
    requires
        start <= end <= ls@.len(),
    ensures
        match body_edits(lines_view(ls@.subrange(start as int, end as int))) {
            Some(es) => r is Some && r->0@.map_values(|d: DiffLine| line_view(d)) == es,
            None => r is None,
        },
{
    let ghost body = lines_view(ls@.subrange(start as int, end as int));
    let mut out: Vec<DiffLine> = Vec::new();
    let mut k: usize = start;
    while k < end
        invariant
            start <= k <= end <= ls@.len(),
            body == lines_view(ls@.subrange(start as int, end as int)),
            body_edits(body.subrange(0, k - start)) == Some(
                out@.map_values(|d: DiffLine| line_view(d)),
            ),
        decreases end - k,
    {
        assert(body.subrange(0, k + 1 - start).drop_last() =~= body.subrange(0, k - start));
        assert(body.subrange(0, k + 1 - start).last() == ls@[k as int]@);
        match parse_edit(&ls[k]) {
            None => {
                proof {
                    lemma_body_malformed(body, k + 1 - start);
                }
                return None;
            },
            Some(None) => {},
            Some(Some(e)) => {
                let ghost before = out@;
                out.push(e);
                assert(out@.map_values(|d: DiffLine| line_view(d)) =~= before.map_values(
                    |d: DiffLine| line_view(d),
                ).push(line_view(e)));
            },
        }
        k += 1;
    }
    assert(body.subrange(0, end - start) =~= body);
    Some(out)
}

/// The index of the first hunk-start line at or after `from`, as `next_hunk_start` states.
fn find_hunk_start(ls: &Vec<Vec<char>>, from: usize) -> (r: usize)
    requires
        from <= ls@.len(),
    ensures
        r == next_hunk_start(lines_view(ls@), from as int),
        from <= r <= ls@.len(),
{
    let ghost l = lines_view(ls@);
    let marker = chars_of("@@");
    let mut j: usize = from;
    while j < ls.len()
        invariant
            from <= j <= ls@.len(),
            l == lines_view(ls@),
            l.len() == ls@.len(),
            marker@ == "@@"@,
            next_hunk_start(l, from as int) == next_hunk_start(l, j as int),
        decreases ls@.len() - j,
    {
        assert(l[j as int] == ls@[j as int]@);
        if has_prefix(&ls[j], &marker) {
            return j;
        }
        j += 1;
    }
    j
}

/// The lines of one side of a hunk: the pre-image when `old_side_wanted`
/// holds (all but additions), else the post-image (all but removals).
fn side_lines(es: &Vec<DiffLine>, old_side_wanted: bool) -> (r: Vec<Vec<char>>)
    ensures
        lines_view(r@) == if old_side_wanted {
            old_side(es@.map_values(|d: DiffLine| line_view(d)))
        } else {
            new_side(es@.map_values(|d: DiffLine| line_view(d)))
        },
{
    let ghost v = es@.map_values(|d: DiffLine| line_view(d));
    let skip = if old_side_wanted {
        LineTag::Addition
    } else {
        LineTag::Removal
    };
    let mut out: Vec<Vec<char>> = Vec::new();
    let mut k: usize = 0;
    while k < es.len()
        invariant
            k <= es@.len(),
            v == es@.map_values(|d: DiffLine| line_view(d)),
            skip == if old_side_wanted { LineTag::Addition } else { LineTag::Removal },
            lines_view(out@) == if old_side_wanted {
                old_side(v.subrange(0, k as int))
            } else {
                new_side(v.subrange(0, k as int))
            },
        decreases es@.len() - k,
    {
        assert(v.subrange(0, k + 1).drop_last() =~= v.subrange(0, k as int));
        assert(v.subrange(0, k + 1).last() == line_view(es@[k as int]));
        let e = &es[k];
        if e.tag != skip {
            let t = slice_chars(&e.text, 0, e.text.len());
            assert(t@ =~= e.text@);
            let ghost before = out@;
            out.push(t);
            assert(lines_view(out@) =~= lines_view(before).push(t@));
        }
        k += 1;
    }
    assert(v.subrange(0, es@.len() as int) =~= v);
    out
}

/// The hunks of a unified diff given as lines, as `parse_diff` states.
pub fn parse_diff_lines(ls: &Vec<Vec<char>>) -> (r: Option<Vec<DiffHunk>>)
    ensures
        match parse_diff(lines_view(ls@)) {
            Some(hs) => r is Some && hunks_view(r->0@) == hs,
            None => r is None,
        },
{
    let ghost l = lines_view(ls@);
    if ls.len() < 2 {
        return None;
    }
    let minus = chars_of("---");
    let plus = chars_of("+++");
    assert(l[0] == ls@[0]@ && l[1] == ls@[1]@);
    if !has_prefix(&ls[0], &minus) || !has_prefix(&ls[1], &plus) {
        return None;
    }
    let mut out: Vec<DiffHunk> = Vec::new();
    let mut i: usize = 2;
    while i < ls.len()
        invariant
            2 <= i <= ls@.len(),
            l == lines_view(ls@),
            l.len() == ls@.len(),
            parse_hunks(l, 2) == prepend(hunks_view(out@), parse_hunks(l, i as int)),
        decreases ls@.len() - i,
    {
        assert(l[i as int] == ls@[i as int]@);
        let (a, b, c, d) = match parse_header(&ls[i]) {
            Some(x) => x,
            None => return None,
        };
        let j = find_hunk_start(ls, i + 1);
        let es = match parse_body(ls, i + 1, j) {
            Some(es) => es,
            None => {
                assert(lines_view(ls@.subrange(i + 1, j as int)) =~= l.subrange(i + 1, j as int));
                return None;
            },
        };
        assert(lines_view(ls@.subrange(i + 1, j as int)) =~= l.subrange(i + 1, j as int));
        let old_lines = side_lines(&es, true);
        let new_lines = side_lines(&es, false);
        if old_lines.len() != b || new_lines.len() != d {
            return None;
        }
        let h = DiffHunk { old_start: a, old_count: b, new_start: c, new_count: d, lines: es };
        let ghost before = out@;
        out.push(h);
        proof {
            assert(hunks_view(out@) =~= hunks_view(before).push(hunk_view(h)));
            match parse_hunks(l, j as int) {
                Some(rest) => {
                    assert(hunks_view(before) + (seq![hunk_view(h)] + rest) =~= hunks_view(out@) + rest);
                },
                None => {},
            }
        }
        i = j;
    }
    assert(parse_hunks(l, i as int) == Some(Seq::<HunkModel>::empty()));
    assert(hunks_view(out@) + Seq::<HunkModel>::empty() =~= hunks_view(out@));
    if out.len() == 0 {
        return None;
    }
    if !is_ascending(&out) {
        return None;
    }
    Some(out)
}

/// Whether `old` stands in `buf` at `p`, as `matches_at` states.
fn matches_here(buf: &Vec<Vec<char>>, old: &Vec<Vec<char>>, p: i128) -> (r: bool)
    ensures
        r == matches_at(lines_view(buf@), lines_view(old@), p as int),
        r ==> 0 <= p && p + old@.len() <= buf@.len(),
{
    let ghost b = lines_view(buf@);
    let ghost o = lines_view(old@);
    if p < 0 || p > buf.len() as i128 {
        return false;
    }
    let q = p as usize;
    if old.len() > buf.len() - q {
        return false;
    }
    let mut k: usize = 0;
    while k < old.len()
        invariant
            q + old@.len() <= buf@.len(),
            buf@.len() <= usize::MAX,
            q as int == p as int,
            k <= old@.len(),
            b == lines_view(buf@),
            o == lines_view(old@),
            forall|m: int| 0 <= m < k ==> b[q + m] == o[m],
        decreases old@.len() - k,
    {
        assert(b[q + k] == buf@[q + k]@ && o[k as int] == old@[k as int]@);
        if !same_chars(&buf[q + k], &old[k]) {
            assert(b.subrange(q as int, q + o.len())[k as int] != o[k as int]);
            assert(q as int == p as int);
            assert(!matches_at(b, o, p as int));
            return false;
        }
        k += 1;
    }
    assert(b.subrange(q as int, q + o.len()) =~= o);
    true
}

/// Where a hunk with pre-image `old` applies, as `locate` states.
fn locate_hunk(buf: &Vec<Vec<char>>, old: &Vec<Vec<char>>, exp: i128) -> (r: Option<usize>)
    requires
        -0x1000_0000_0000_0000_0000 < exp < 0x1000_0000_0000_0000_0000,
    ensures
        match locate(lines_view(buf@), lines_view(old@), exp as int) {
            Some(p) => r matches Some(q) && q == p,
            None => r is None,
        },
        r matches Some(q) ==> q + old@.len() <= buf@.len(),
{
    let ghost b = lines_view(buf@);
    let ghost o = lines_view(old@);
    let n = buf.len();
    if matches_here(buf, old, exp) {
        return Some(exp as usize);
    }
    let mut d: usize = 1;
    while d <= FUZZ_LINES
        invariant
            1 <= d <= FUZZ_LINES + 1,
            -0x1000_0000_0000_0000_0000 < exp < 0x1000_0000_0000_0000_0000,
            b == lines_view(buf@),
            o == lines_view(old@),
            search_near(b, o, exp as int, 1) == search_near(b, o, exp as int, d as int),
            n == buf@.len(),
            !matches_at(b, o, exp as int),
        decreases FUZZ_LINES + 1 - d,
    {
        if matches_here(buf, old, exp - d as i128) {
            return Some((exp - d as i128) as usize);
        }
        if matches_here(buf, old, exp + d as i128) {
            return Some((exp + d as i128) as usize);
        }
        d += 1;
    }
    None
}

/// Replaces the `n` lines at `p` with `new`, as `splice` states.
fn splice_lines(buf: &mut Vec<Vec<char>>, p: usize, n: usize, new: Vec<Vec<char>>)
    requires
        p + n <= old(buf)@.len(),
    ensures
        lines_view(final(buf)@) == splice(lines_view(old(buf)@), p as int, n as int, lines_view(new@)),
{
    let ghost b = old(buf)@;
    let len = buf.len();
    let mut tail = buf.split_off(p + n);
    buf.truncate(p);
    let mut new = new;
    let ghost nv = new@;
    buf.append(&mut new);
    buf.append(&mut tail);
    proof {
        let bv = lines_view(b);
        assert(buf@ =~= b.subrange(0, p as int) + nv + b.subrange(p + n, b.len() as int));
        assert(lines_view(buf@) =~= bv.subrange(0, p as int) + lines_view(nv) + bv.subrange(
            p + n,
            bv.len() as int,
        ));
    }
}

/// Applies the hunks in order to a line buffer, as `apply_hunks` states.
pub fn apply_hunk_list(lines: Vec<Vec<char>>, hunks: &Vec<DiffHunk>) -> (r: Option<Vec<Vec<char>>>)
    ensures
        match apply_hunks(lines_view(lines@), hunks_view(hunks@), 0) {
            Some(b) => r is Some && lines_view(r->0@) == b,
            None => r is None,
        },
{
    let ghost hs = hunks_view(hunks@);
    let ghost b0 = lines_view(lines@);
    let base_len = lines.len();
    let mut buf = lines;
    assert(hs.subrange(0, hs.len() as int) =~= hs);
    let mut k: usize = 0;
    while k < hunks.len()
        invariant
            k <= hunks@.len(),
            hs == hunks_view(hunks@),
            base_len == b0.len(),
            b0 == lines_view(lines@),
            apply_hunks(b0, hs, 0) == apply_hunks(
                lines_view(buf@),
                hs.subrange(k as int, hs.len() as int),
                buf@.len() - base_len,
            ),
        decreases hunks@.len() - k,
    {
        let h = &hunks[k];
        let ghost rest = hs.subrange(k as int, hs.len() as int);
        assert(rest[0] == hunk_view(*h));
        assert(rest.drop_first() =~= hs.subrange(k + 1, hs.len() as int));
        let old_lines = side_lines(&h.lines, true);
        let new_lines = side_lines(&h.lines, false);
        let start: i128 = if h.old_count == 0 {
            h.old_start as i128
        } else {
            h.old_start as i128 - 1
        };
        let exp: i128 = start + buf.len() as i128 - base_len as i128;
        proof {
            assert(hunk_view(*h).lines == h.lines@.map_values(|d: DiffLine| line_view(d)));
            assert(exp == expected_index(rest[0]) + (buf@.len() - base_len));
            assert(lines_view(buf@).len() == buf@.len());
        }
        match locate_hunk(&buf, &old_lines, exp) {
            None => {
                assert(lines_view(old_lines@) == old_side(rest[0].lines));
                assert(apply_hunks(lines_view(buf@), rest, buf@.len() - base_len) is None);
                return None;
            },
            Some(p) => {
                let ghost nl = lines_view(new_lines@).len();
                let ghost ol = lines_view(old_lines@).len();
                let ghost before_len = buf@.len();
                splice_lines(&mut buf, p, old_lines.len(), new_lines);
                assert(buf@.len() == before_len - ol + nl);
            },
        }
        k += 1;
    }
    assert(hs.subrange(k as int, hs.len() as int) =~= Seq::<HunkModel>::empty());
    Some(buf)
}

} // verus!
