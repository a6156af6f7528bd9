//! Path strings: normalisation and the skipped-directory rule.
use vstd::prelude::*;
use crate::text::{chars_of, has_prefix, same_chars, starts_with, string_of};

verus! {

/// `p` with every backslash turned into a forward slash.
pub open spec fn forward_slashes(p: Seq<char>) -> Seq<char> {
    p.map_values(|c: char| if c == '\\' { '/' } else { c })
}

/// `p` without its leading run of `/` and `./` separators and current-
/// directory steps; a lone `.` left at the end is dropped too.
pub open spec fn strip_current_dirs(p: Seq<char>) -> Seq<char>
    decreases p.len(),
{
    if p.len() > 0 && p[0] == '/' {
        strip_current_dirs(p.drop_first())
    } else if p.len() >= 2 && p[0] == '.' && p[1] == '/' {
        strip_current_dirs(p.subrange(2, p.len() as int))
    } else if p.len() == 1 && p[0] == '.' {
        Seq::empty()
    } else {
        p
    }
}

/// The normal form of a path: separators become forward slashes; `.` stands
/// for every file below the current directory; a path that starts with `./`
/// loses every leading current-directory step, as a path's components would.
pub open spec fn normalized(p: Seq<char>) -> Seq<char> {
    let q = forward_slashes(p);
    if q == "."@ {
        "**/*"@
    } else if starts_with(q, "./"@) {
        strip_current_dirs(q.subrange("./"@.len() as int, q.len() as int))
    } else {
        q
    }
}

/// Whether `p` holds no backslash.
pub open spec fn no_backslash(p: Seq<char>) -> bool {
    forall|k: int| 0 <= k < p.len() ==> p[k] != '\\'
}

proof fn lemma_forward_slashes_plain(p: Seq<char>)
    ensures
        no_backslash(forward_slashes(p)),
        no_backslash(p) ==> forward_slashes(p) == p,
{
    if no_backslash(p) {
        assert(forward_slashes(p) =~= p);
    }
}

proof fn lemma_strip_current_dirs(p: Seq<char>)
    requires
        no_backslash(p),
    ensures
        no_backslash(strip_current_dirs(p)),
        !(strip_current_dirs(p).len() > 0 && strip_current_dirs(p)[0] == '/'),
        !(strip_current_dirs(p).len() >= 2 && strip_current_dirs(p)[0] == '.' && strip_current_dirs(p)[1]
            == '/'),
        !(strip_current_dirs(p).len() == 1 && strip_current_dirs(p)[0] == '.'),
    decreases p.len(),
{
    if p.len() > 0 && p[0] == '/' {
        lemma_strip_current_dirs(p.drop_first());
    } else if p.len() >= 2 && p[0] == '.' && p[1] == '/' {
        lemma_strip_current_dirs(p.subrange(2, p.len() as int));
    }
}

/// A normalised path never starts with `./`, and normalising it again
/// changes nothing.
pub proof fn normalized_is_stable(p: Seq<char>)
    ensures
        !starts_with(normalized(p), "./"@),
        normalized(normalized(p)) == normalized(p),
{
    reveal_strlit(".");
    reveal_strlit("./");
    reveal_strlit("**/*");
    let q = forward_slashes(p);
    lemma_forward_slashes_plain(p);
    let r = normalized(p);
    if q == "."@ {
        lemma_forward_slashes_plain(r);
        assert(r[0] == '*');
        assert(r.subrange(0, 2)[0] == '*');
    } else if starts_with(q, "./"@) {
        let rest = q.subrange(2, q.len() as int);
        assert(no_backslash(rest));
        lemma_strip_current_dirs(rest);
        lemma_forward_slashes_plain(r);
        if r.len() >= 2 {
            assert(r.subrange(0, 2)[0] == r[0] && r.subrange(0, 2)[1] == r[1]);
        }
        assert(r != "."@);
    } else {
        lemma_forward_slashes_plain(q);
    }
}

/// After reading `t`: the finished `/`-separated segments, and the one being read.
pub open spec fn segment_state(t: Seq<char>) -> (Seq<Seq<char>>, Seq<char>)
    decreases t.len(),
{
    if t.len() == 0 {
        (Seq::empty(), Seq::empty())
    } else {
        let (done, cur) = segment_state(t.drop_last());
        if t.last() == '/' {
            (done.push(cur), Seq::empty())
        } else {
            (done, cur.push(t.last()))
        }
    }
}

/// The `/`-separated segments of a path, empty ones included.
pub open spec fn segments(t: Seq<char>) -> Seq<Seq<char>> {
    segment_state(t).0.push(segment_state(t).1)
}

/// A segment that names a directory or file: not empty, `.` or `..`.
pub open spec fn is_named_segment(s: Seq<char>) -> bool {
    s.len() > 0 && s != "."@ && s != ".."@
}

/// Whether a named segment `s` is one of `dirs`.
pub open spec fn segment_skipped(s: Seq<char>, dirs: Seq<&str>) -> bool {
    is_named_segment(s) && exists|k: int| 0 <= k < dirs.len() && dirs[k]@ == s
}

/// Whether some segment of the path is one of the skipped directories.
pub open spec fn path_skipped(p: Seq<char>, dirs: Seq<&str>) -> bool {
    exists|k: int| 0 <= k < segments(p).len() && segment_skipped(#[trigger] segments(p)[k], dirs)
}

/// Normalize the input path string.
pub fn normalize_path(path_str: &str) -> (r: String)
    ensures
        r@ == normalized(path_str@),
        !starts_with(r@, "./"@),
        normalized(r@) == r@,
{
    proof {
        normalized_is_stable(path_str@);
    }
    let p = chars_of(path_str);
    let mut q: Vec<char> = Vec::new();
    let mut i: usize = 0;
    while i < p.len()
        invariant
            i <= p@.len(),
            q@ == forward_slashes(p@.subrange(0, i as int)),
        decreases p@.len() - i,
    {
        let c = p[i];
        q.push(if c == '\\' { '/' } else { c });
        proof {
            assert(q@ =~= forward_slashes(p@.subrange(0, i + 1)));
        }
        i += 1;
    }
    proof {
        assert(p@.subrange(0, p@.len() as int) =~= p@);
    }
    let dot = chars_of(".");
    if same_chars(&q, &dot) {
        return "**/*".to_owned();
    }
    let cur = chars_of("./");
    if !has_prefix(&q, &cur) {
        return string_of(&q);
    }
    let n = q.len();
    let mut k: usize = cur.len();
    while k < n && (q[k] == '/' || (k + 1 < n && q[k] == '.' && q[k + 1] == '/'))
        invariant
            cur.len() <= k <= n,
            n == q@.len(),
            cur@ == "./"@,
            strip_current_dirs(q@.subrange(cur@.len() as int, n as int)) == strip_current_dirs(
                q@.subrange(k as int, n as int),
            ),
        decreases n - k,
    {
        let ghost s = q@.subrange(k as int, n as int);
        if q[k] == '/' {
            assert(s.drop_first() =~= q@.subrange(k + 1, n as int));
            k += 1;
        } else {
            assert(s.subrange(2, s.len() as int) =~= q@.subrange(k + 2, n as int));
            k += 2;
        }
    }
    if k < n && k == n - 1 && q[k] == '.' {
        let empty: Vec<char> = Vec::new();
        proof {
            assert(empty@ =~= strip_current_dirs(q@.subrange(k as int, n as int)));
        }
        return string_of(&empty);
    }
    let rest = crate::text::slice_chars(&q, k, n);
    string_of(&rest)
}

/// Whether a segment is one of the skipped directories.
fn segment_in(seg: &Vec<char>, skip_dirs: &[&str]) -> (r: bool)
    ensures
        r == segment_skipped(seg@, skip_dirs@),
{
    let dot = chars_of(".");
    let dotdot = chars_of("..");
    if seg.len() == 0 || same_chars(seg, &dot) || same_chars(seg, &dotdot) {
        return false;
    }
    let mut k: usize = 0;
    while k < skip_dirs.len()
        invariant
            k <= skip_dirs@.len(),
            is_named_segment(seg@),
            forall|j: int| 0 <= j < k ==> skip_dirs@[j]@ != seg@,
        decreases skip_dirs@.len() - k,
    {
        let d = chars_of(skip_dirs[k]);
        if same_chars(&d, seg) {
            return true;
        }
        k += 1;
    }
    false
}

/// Check if a path contains any of the skipped directories.
pub fn is_path_skipped(path: &str, skip_dirs: &[&str]) -> (r: bool)
    ensures
        r == path_skipped(path@, skip_dirs@),
{
    let p = chars_of(path);
    let mut cur: Vec<char> = Vec::new();
    let ghost mut done: Seq<Seq<char>> = Seq::empty();
    let mut i: usize = 0;
    while i < p.len()
        invariant
            i <= p@.len(),
            p@ == path@,
            segment_state(p@.subrange(0, i as int)) == (done, cur@),
            forall|k: int| 0 <= k < done.len() ==> !segment_skipped(#[trigger] done[k], skip_dirs@),
        decreases p@.len() - i,
    {
        assert(p@.subrange(0, i + 1).drop_last() =~= p@.subrange(0, i as int));
        let c = p[i];
        if c == '/' {
            if segment_in(&cur, skip_dirs) {
                proof {
                    let ds = done.push(cur@);
                    assert(segment_state(p@.subrange(0, i + 1)).0 == ds);
                    lemma_segments_extend(p@, i as int + 1);
                    assert(segments(p@)[done.len() as int] == ds[done.len() as int]);
                    assert(segment_skipped(segments(p@)[done.len() as int], skip_dirs@));

                }
                return true;
            }
            proof {
                done = done.push(cur@);
            }
            cur = Vec::new();
        } else {
            cur.push(c);
        }
        i += 1;
    }
    assert(p@.subrange(0, p@.len() as int) =~= p@);
    let last = segment_in(&cur, skip_dirs);
    proof {
        assert(segments(p@) == done.push(cur@));
        if !last {
            assert forall|k: int| 0 <= k < segments(p@).len() implies !segment_skipped(
                #[trigger] segments(p@)[k],
                skip_dirs@,
            ) by {
                if k < done.len() {
                    assert(segments(p@)[k] == done[k]);
                }
            }
        } else {
            assert(segments(p@)[done.len() as int] == cur@);
        }
    }
    last
}

/// The segments finished after a prefix stay among the segments of the whole path.
proof fn lemma_segments_extend(t: Seq<char>, n: int)
    requires
        0 <= n <= t.len(),
    ensures
        forall|k: int|
            0 <= k < segment_state(t.subrange(0, n)).0.len() ==> #[trigger] segments(t)[k]
                == segment_state(t.subrange(0, n)).0[k],
        segment_state(t.subrange(0, n)).0.len() < segments(t).len(),
    decreases t.len() - n,
{
    if n < t.len() {
        lemma_segments_extend(t, n + 1);
        assert(t.subrange(0, n + 1).drop_last() =~= t.subrange(0, n));
    } else {
        assert(t.subrange(0, n) =~= t);
    }
}

} // verus!
