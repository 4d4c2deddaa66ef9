//! Paths as text, with the Unix semantics of `std::path`: joining,
//! splitting into segments, lexical normalization, the parent and the file
//! name, and the stripping of the root.
use vstd::prelude::*;
use crate::text::{
    chars_eq, concat_chars, find_char_from, is_first_index, lemma_exists_first, join, join_chars, lemma_first_index_unique,
    slice_chars, starts_with, starts_with_char, views,
};

verus! {

/// A path that starts at the root.
pub open spec fn is_absolute(p: Seq<char>) -> bool {
    starts_with_char(p, '/')
}

/// `base.join(p)`: `p` itself when it is absolute or `base` is empty, else
/// `p` appended to `base` with one separator between them.
pub open spec fn join_path(base: Seq<char>, p: Seq<char>) -> Seq<char> {
    if is_absolute(p) || base.len() == 0 {
        p
    } else if base.last() == '/' {
        base + p
    } else {
        base + seq!['/'] + p
    }
}

/// The pieces of `p` between separators (empty pieces included).
pub open spec fn segments(p: Seq<char>) -> Seq<Seq<char>>
    decreases p.len(),
{
    if exists|i: int| is_first_index(p, '/', i) {
        let i = choose|i: int| is_first_index(p, '/', i);
        seq![p.take(i)] + segments(p.skip(i + 1))
    } else {
        seq![p]
    }
}

/// A segment that names no component: empty, or `.`.
pub open spec fn is_skippable(seg: Seq<char>) -> bool {
    seg.len() == 0 || seg == seq!['.']
}

/// The segment `..`.
pub open spec fn is_parent_ref(seg: Seq<char>) -> bool {
    seg == seq!['.', '.']
}

/// One step of lexical resolution: skip empty and `.` segments, drop the
/// last component on `..`, keep any other segment.
pub open spec fn resolve_step(stack: Seq<Seq<char>>, seg: Seq<char>) -> Seq<Seq<char>> {
    if is_skippable(seg) {
        stack
    } else if is_parent_ref(seg) {
        if stack.len() > 0 {
            stack.drop_last()
        } else {
            stack
        }
    } else {
        stack.push(seg)
    }
}

/// The components left after resolving `segs` from left to right.
pub open spec fn resolve(segs: Seq<Seq<char>>) -> Seq<Seq<char>>
    decreases segs.len(),
{
    if segs.len() == 0 {
        Seq::empty()
    } else {
        resolve_step(resolve(segs.drop_last()), segs.last())
    }
}

/// The root followed by `components`, separated by `/`.
pub open spec fn render_absolute(components: Seq<Seq<char>>) -> Seq<char> {
    seq!['/'] + join(components, seq!['/'])
}

/// The absolute path with every `.`, `..` and empty segment of `p` resolved.
pub open spec fn normalize_path(p: Seq<char>) -> Seq<char> {
    render_absolute(resolve(segments(p)))
}

/// `segs` without its leading empty and `.` segments.
pub open spec fn drop_leading_skippable(segs: Seq<Seq<char>>) -> Seq<Seq<char>>
    decreases segs.len(),
{
    if segs.len() > 0 && is_skippable(segs[0]) {
        drop_leading_skippable(segs.drop_first())
    } else {
        segs
    }
}

/// `segs` without its trailing empty and `.` segments.
pub open spec fn drop_trailing_skippable(segs: Seq<Seq<char>>) -> Seq<Seq<char>>
    decreases segs.len(),
{
    if segs.len() > 0 && is_skippable(segs.last()) {
        drop_trailing_skippable(segs.drop_last())
    } else {
        segs
    }
}

/// `p.strip_prefix("/")` for an absolute `p`: the text after the root
/// without the empty and `.` segments at its two ends.
pub open spec fn strip_root(p: Seq<char>) -> Seq<char> {
    join(drop_trailing_skippable(drop_leading_skippable(segments(p.drop_first()))), seq!['/'])
}

/// An absolute `path` placed inside `container_dir`, a relative one
/// inside `current_dir`.
pub open spec fn contextualize_path(
    container_dir: Seq<char>,
    current_dir: Seq<char>,
    path: Seq<char>,
) -> Seq<char> {
    if is_absolute(path) {
        join_path(container_dir, strip_root(path))
    } else {
        join_path(current_dir, path)
    }
}

/// The last segment that names a component, if any.
pub open spec fn last_named(segs: Seq<Seq<char>>) -> Option<Seq<char>>
    decreases segs.len(),
{
    if segs.len() == 0 {
        None
    } else if is_skippable(segs.last()) {
        last_named(segs.drop_last())
    } else {
        Some(segs.last())
    }
}

/// `Path::file_name`: the last component, unless it is `..` or there is none.
pub open spec fn file_name(p: Seq<char>) -> Option<Seq<char>> {
    match last_named(segments(p)) {
        Some(name) => if is_parent_ref(name) {
            None
        } else {
            Some(name)
        },
        None => None,
    }
}

/// A relative path that starts with the current directory `.`.
pub open spec fn has_cur_dir_prefix(p: Seq<char>) -> bool {
    !is_absolute(p) && (p == seq!['.'] || (p.len() >= 2 && p[0] == '.' && p[1] == '/'))
}

/// The length of the root or current-directory prefix of `p`.
pub open spec fn prefix_len(p: Seq<char>) -> int {
    if is_absolute(p) || has_cur_dir_prefix(p) {
        1
    } else {
        0
    }
}

/// `Path::parent`: the path without its last component; none for the root
/// and for the empty path.
pub open spec fn parent_path(p: Seq<char>) -> Option<Seq<char>> {
    let pre = prefix_len(p);
    let body = drop_trailing_skippable(segments(p.skip(pre)));
    if body.len() > 0 {
        Some(p.take(pre) + join(drop_trailing_skippable(body.drop_last()), seq!['/']))
    } else if has_cur_dir_prefix(p) {
        Some(Seq::empty())
    } else {
        None
    }
}

// ---------------------------------------------------------------- lemmas
/// The joined text starts with the first part.
proof fn lemma_join_starts_with_first(r: Seq<Seq<char>>, sep: Seq<char>)
    requires
        r.len() > 0,
    ensures
        r[0].is_prefix_of(join(r, sep)),
    decreases r.len(),
{
    if r.len() > 1 {
        lemma_join_starts_with_first(r.drop_last(), sep);
        let j = join(r.drop_last(), sep);
        assert(join(r, sep) == j + sep + r.last());
        assert forall|k: int| 0 <= k < r[0].len() implies r[0][k] == join(r, sep)[k] by {
            assert(r.drop_last()[0] == r[0]);
            assert(j[k] == r[0][k]);
        }
    }
}

proof fn lemma_drop_leading_first(segs: Seq<Seq<char>>)
    ensures
        drop_leading_skippable(segs).len() > 0 ==> !is_skippable(drop_leading_skippable(segs)[0]),
        exists|d: int|
            0 <= d <= segs.len() && drop_leading_skippable(segs) == segs.skip(d),
    decreases segs.len(),
{
    if segs.len() > 0 && is_skippable(segs[0]) {
        lemma_drop_leading_first(segs.drop_first());
        let d = choose|d: int|
            0 <= d <= segs.drop_first().len() && drop_leading_skippable(segs.drop_first())
                == segs.drop_first().skip(d);
        assert(segs.drop_first().skip(d) =~= segs.skip(d + 1));
    } else {
        assert(segs.skip(0) =~= segs);
    }
}

proof fn lemma_drop_trailing_prefix(segs: Seq<Seq<char>>)
    ensures
        exists|d: int|
            0 <= d <= segs.len() && drop_trailing_skippable(segs) == segs.take(d),
    decreases segs.len(),
{
    if segs.len() > 0 && is_skippable(segs.last()) {
        lemma_drop_trailing_prefix(segs.drop_last());
        let d = choose|d: int|
            0 <= d <= segs.drop_last().len() && drop_trailing_skippable(segs.drop_last())
                == segs.drop_last().take(d);
        assert(segs.drop_last().take(d) =~= segs.take(d));
    } else {
        assert(segs.take(segs.len() as int) =~= segs);
    }
}

/// The text after the root never starts at the root again.
pub proof fn lemma_strip_root_relative(p: Seq<char>)
    ensures
        !is_absolute(strip_root(p)),
{
    let segs = segments(p.drop_first());
    let lead = drop_leading_skippable(segs);
    let kept = drop_trailing_skippable(lead);
    lemma_drop_leading_first(segs);
    lemma_drop_trailing_prefix(lead);
    lemma_segments_no_separator(p.drop_first());
    if kept.len() > 0 {
        let d = choose|d: int| 0 <= d <= segs.len() && lead == segs.skip(d);
        assert(kept[0] == lead[0]);
        assert(lead[0] == segs[d]);
        assert(!is_skippable(kept[0]));
        lemma_join_starts_with_first(kept, seq!['/']);
        assert(kept[0][0] == segs[d][0]);
        assert(strip_root(p)[0] == kept[0][0]);
    } else {
        assert(join(kept, seq!['/']) =~= Seq::<char>::empty());
    }
}

/// Law: contextualizing places an absolute path inside the container
/// directory and a relative one inside the current directory: the result
/// starts with that directory.
pub proof fn lemma_contextualize_within(
    container_dir: Seq<char>,
    current_dir: Seq<char>,
    path: Seq<char>,
)
    ensures
        is_absolute(path) ==> container_dir.is_prefix_of(
            contextualize_path(container_dir, current_dir, path),
        ),
        !is_absolute(path) ==> current_dir.is_prefix_of(
            contextualize_path(container_dir, current_dir, path),
        ),
{
    if is_absolute(path) {
        lemma_strip_root_relative(path);
        let r = contextualize_path(container_dir, current_dir, path);
        if container_dir.len() > 0 {
            assert forall|k: int| 0 <= k < container_dir.len() implies container_dir[k] == r[k] by {}
        }
    } else {
        let r = contextualize_path(container_dir, current_dir, path);
        if current_dir.len() > 0 {
            assert forall|k: int| 0 <= k < current_dir.len() implies current_dir[k] == r[k] by {}
        }
    }
}

/// A component: a segment that is neither empty, `.` nor `..`, and holds no
/// separator.
pub open spec fn is_component(seg: Seq<char>) -> bool {
    &&& !is_skippable(seg)
    &&& !is_parent_ref(seg)
    &&& forall|j: int| 0 <= j < seg.len() ==> seg[j] != '/'
}

proof fn lemma_segments_no_first(x: Seq<char>)
    requires
        forall|j: int| 0 <= j < x.len() ==> x[j] != '/',
    ensures
        segments(x) == seq![x],
{
    assert(!exists|i: int| is_first_index(x, '/', i));
}

/// Splitting text at a separator splits its segments there.
proof fn lemma_segments_concat(x: Seq<char>, y: Seq<char>)
    ensures
        segments(x + seq!['/'] + y) == segments(x) + segments(y),
    decreases x.len(),
{
    let z = x + seq!['/'] + y;
    if exists|i: int| is_first_index(x, '/', i) {
        let i = choose|i: int| is_first_index(x, '/', i);
        assert(is_first_index(z, '/', i));
        let w = choose|w: int| is_first_index(z, '/', w);
        lemma_first_index_unique(z, '/', i, w);
        assert(z.take(i) =~= x.take(i));
        assert(z.skip(i + 1) =~= x.skip(i + 1) + seq!['/'] + y);
        lemma_segments_concat(x.skip(i + 1), y);
    } else {
        assert forall|j: int| 0 <= j < x.len() implies x[j] != '/' by {
            if x[j] == '/' {
                lemma_exists_first(x, '/', j);
            }
        }
        let i = x.len() as int;
        assert(is_first_index(z, '/', i));
        let w = choose|w: int| is_first_index(z, '/', w);
        lemma_first_index_unique(z, '/', i, w);
        assert(z.take(i) =~= x);
        assert(z.skip(i + 1) =~= y);
        lemma_segments_no_first(x);
    }
}

/// Joining components and splitting the result gives the components back.
proof fn lemma_segments_join(r: Seq<Seq<char>>)
    requires
        r.len() > 0,
        forall|k: int| 0 <= k < r.len() ==> is_component(#[trigger] r[k]),
    ensures
        segments(join(r, seq!['/'])) == r,
    decreases r.len(),
{
    if r.len() == 1 {
        assert(is_component(r[0]));
        lemma_segments_no_first(r[0]);
        assert(seq![r[0]] =~= r);
    } else {
        let init = r.drop_last();
        assert forall|k: int| 0 <= k < init.len() implies is_component(#[trigger] init[k]) by {
            assert(init[k] == r[k]);
        }
        lemma_segments_join(init);
        lemma_segments_concat(join(init, seq!['/']), r.last());
        assert(is_component(r[r.len() - 1]));
        lemma_segments_no_first(r.last());
        assert(init + seq![r.last()] =~= r);
    }
}

/// Resolving components appended after other segments keeps them all.
proof fn lemma_resolve_append_components(a: Seq<Seq<char>>, t: Seq<Seq<char>>)
    requires
        forall|k: int| 0 <= k < t.len() ==> is_component(#[trigger] t[k]),
    ensures
        resolve(a + t) == resolve(a) + t,
    decreases t.len(),
{
    if t.len() == 0 {
        assert(a + t =~= a);
        assert(resolve(a) + t =~= resolve(a));
    } else {
        let init = t.drop_last();
        assert forall|k: int| 0 <= k < init.len() implies is_component(#[trigger] init[k]) by {
            assert(init[k] == t[k]);
        }
        lemma_resolve_append_components(a, init);
        assert((a + t).drop_last() =~= a + init);
        assert((a + t).last() == t.last());
        assert(is_component(t[t.len() - 1]));
        assert(resolve(a) + t =~= (resolve(a) + init).push(t.last()));
    }
}

/// Every element that resolution keeps is one of the segments.
proof fn lemma_resolve_from_segments(segs: Seq<Seq<char>>, k: int)
    requires
        0 <= k < resolve(segs).len(),
    ensures
        exists|j: int| 0 <= j < segs.len() && segs[j] == resolve(segs)[k],
    decreases segs.len(),
{
    let prev = resolve(segs.drop_last());
    let r = resolve(segs);
    assert(r == resolve_step(prev, segs.last()));
    if k < prev.len() && r[k] == prev[k] {
        lemma_resolve_from_segments(segs.drop_last(), k);
        let j = choose|j: int| 0 <= j < segs.drop_last().len() && segs.drop_last()[j] == prev[k];
        assert(segs[j] == r[k]);
    } else {
        assert(r[k] == segs[segs.len() - 1]);
    }
}

/// The components that normalization keeps.
pub proof fn lemma_resolved_are_components(p: Seq<char>)
    ensures
        forall|k: int|
            0 <= k < resolve(segments(p)).len() ==> is_component(
                #[trigger] resolve(segments(p))[k],
            ),
{
    let segs = segments(p);
    let r = resolve(segs);
    lemma_resolve_clean(segs);
    lemma_segments_no_separator(p);
    assert forall|k: int| 0 <= k < r.len() implies is_component(#[trigger] r[k]) by {
        lemma_resolve_from_segments(segs, k);
        let j = choose|j: int| 0 <= j < segs.len() && segs[j] == r[k];
        assert forall|q: int| 0 <= q < r[k].len() implies r[k][q] != '/' by {
            assert(segs[j][q] == r[k][q]);
        }
    }
}

proof fn lemma_resolve_single_empty()
    ensures
        resolve(seq![Seq::<char>::empty()]) == Seq::<Seq<char>>::empty(),
        resolve(seq![Seq::<char>::empty(), Seq::<char>::empty()]) == Seq::<Seq<char>>::empty(),
{
    let e = Seq::<char>::empty();
    let none = Seq::<Seq<char>>::empty();
    assert(resolve(none) == none);
    assert(seq![e].drop_last() =~= none);
    assert(is_skippable(e));
    assert(resolve(seq![e]) == resolve_step(resolve(none), e));
    assert(seq![e, e].drop_last() =~= seq![e]);
    assert(resolve(seq![e, e]) == resolve_step(resolve(seq![e]), e));
}

/// Law: normalization yields an absolute path whose segments after the root
/// are named components (no empty, `.` or `..` segment), and normalizing it
/// again changes nothing.
pub proof fn lemma_normalize_idempotent(p: Seq<char>)
    ensures
        is_absolute(normalize_path(p)),
        forall|k: int|
            0 <= k < resolve(segments(p)).len() ==> is_component(
                #[trigger] resolve(segments(p))[k],
            ),
        normalize_path(normalize_path(p)) == normalize_path(p),
{
    let r = resolve(segments(p));
    lemma_resolved_are_components(p);
    let q = normalize_path(p);
    let empty: Seq<char> = Seq::empty();
    if r.len() == 0 {
        assert(join(r, seq!['/']) =~= empty);
        assert(q =~= empty + seq!['/'] + empty);
        lemma_segments_concat(empty, empty);
        lemma_segments_no_first(empty);
        assert(segments(q) =~= seq![empty, empty]);
        lemma_resolve_single_empty();
    } else {
        assert(q =~= empty + seq!['/'] + join(r, seq!['/']));
        lemma_segments_concat(empty, join(r, seq!['/']));
        lemma_segments_no_first(empty);
        lemma_segments_join(r);
        assert(segments(q) =~= seq![empty] + r);
        lemma_resolve_append_components(seq![empty], r);
        lemma_resolve_single_empty();
        assert(Seq::<Seq<char>>::empty() + r =~= r);
    }
}

pub proof fn lemma_resolve_clean(segs: Seq<Seq<char>>)
    ensures
        forall|k: int|
            0 <= k < resolve(segs).len() ==> !is_skippable(#[trigger] resolve(segs)[k])
                && !is_parent_ref(resolve(segs)[k]),
    decreases segs.len(),
{
    if segs.len() > 0 {
        let prev = resolve(segs.drop_last());
        lemma_resolve_clean(segs.drop_last());
        let r = resolve(segs);
        assert(r == resolve_step(prev, segs.last()));
        assert forall|k: int| 0 <= k < r.len() implies !is_skippable(#[trigger] r[k]) && !is_parent_ref(
            r[k],
        ) by {
            if k < prev.len() {
                assert(r[k] == prev[k]);
            }
        }
    }
}

/// Every segment is free of separators.
pub proof fn lemma_segments_no_separator(p: Seq<char>)
    ensures
        forall|k: int, j: int|
            0 <= k < segments(p).len() && 0 <= j < segments(p)[k].len() ==> #[trigger] segments(
                p,
            )[k][j] != '/',
    decreases p.len(),
{
    if exists|i: int| is_first_index(p, '/', i) {
        let i = choose|i: int| is_first_index(p, '/', i);
        lemma_segments_no_separator(p.skip(i + 1));
        let s = segments(p);
        assert(s == seq![p.take(i)] + segments(p.skip(i + 1)));
        assert forall|k: int, j: int| 0 <= k < s.len() && 0 <= j < s[k].len() implies #[trigger] s[k][j]
            != '/' by {
            if k == 0 {
                assert(s[0][j] == p[j]);
            } else {
                assert(s[k] == segments(p.skip(i + 1))[k - 1]);
            }
        }
    } else {
        assert forall|j: int| 0 <= j < p.len() implies p[j] != '/' by {
            if p[j] == '/' {
                lemma_exists_first(p, '/', j);
            }
        }
    }
}


proof fn lemma_drop_leading_skip(s: Seq<Seq<char>>, a: int)
    requires
        0 <= a <= s.len(),
        forall|k: int| 0 <= k < a ==> is_skippable(#[trigger] s[k]),
        a == s.len() || !is_skippable(s[a]),
    ensures
        drop_leading_skippable(s) == s.skip(a),
    decreases a,
{
    if a == 0 {
        assert(s.skip(0) =~= s);
    } else {
        assert(is_skippable(s[0]));
        let t = s.drop_first();
        assert forall|k: int| 0 <= k < a - 1 implies is_skippable(#[trigger] t[k]) by {
            assert(t[k] == s[k + 1]);
        }
        if a - 1 < t.len() {
            assert(t[a - 1] == s[a]);
        }
        lemma_drop_leading_skip(t, a - 1);
        assert(t.skip(a - 1) =~= s.skip(a));
    }
}

proof fn lemma_drop_trailing_take(s: Seq<Seq<char>>, b: int)
    requires
        0 <= b <= s.len(),
        forall|k: int| b <= k < s.len() ==> is_skippable(#[trigger] s[k]),
        b == 0 || !is_skippable(s[b - 1]),
    ensures
        drop_trailing_skippable(s) == s.take(b),
    decreases s.len() - b,
{
    if b == s.len() {
        assert(s.take(b) =~= s);
    } else {
        assert(is_skippable(s.last()));
        let t = s.drop_last();
        assert forall|k: int| b <= k < t.len() implies is_skippable(#[trigger] t[k]) by {
            assert(t[k] == s[k]);
        }
        if b > 0 {
            assert(t[b - 1] == s[b - 1]);
        }
        lemma_drop_trailing_take(t, b);
        assert(t.take(b) =~= s.take(b));
    }
}

proof fn lemma_last_named_at(s: Seq<Seq<char>>, j: int)
    requires
        -1 <= j < s.len(),
        forall|k: int| j < k < s.len() ==> is_skippable(#[trigger] s[k]),
        j >= 0 ==> !is_skippable(s[j]),
    ensures
        last_named(s) == (if j >= 0 {
            Some(s[j])
        } else {
            None::<Seq<char>>
        }),
    decreases s.len(),
{
    if s.len() > 0 && j < s.len() - 1 {
        let t = s.drop_last();
        assert forall|k: int| j < k < t.len() implies is_skippable(#[trigger] t[k]) by {
            assert(t[k] == s[k]);
        }
        lemma_last_named_at(t, j);
        if j >= 0 {
            assert(t[j] == s[j]);
        }
    }
}

/// Whether the segment is empty or `.`.
pub fn is_skippable_segment(seg: &Vec<char>) -> (b: bool)
    ensures
        b == is_skippable(seg@),
{
    if seg.len() == 0 {
        true
    } else if seg.len() == 1 && seg[0] == '.' {
        assert(seg@ =~= seq!['.']);
        true
    } else {
        assert(seg.len() == 1 ==> seg@[0] != '.');
        assert(seg@ != seq!['.'] || seg@[0] == '.');
        false
    }
}

/// Whether the segment is `..`.
pub fn is_parent_ref_segment(seg: &Vec<char>) -> (b: bool)
    ensures
        b == is_parent_ref(seg@),
{
    if seg.len() == 2 && seg[0] == '.' && seg[1] == '.' {
        assert(seg@ =~= seq!['.', '.']);
        true
    } else {
        assert(seg@ != seq!['.', '.'] || (seg@[0] == '.' && seg@[1] == '.' && seg.len() == 2));
        false
    }
}

/// `base.join(p)`.
pub fn join_path_chars(base: &Vec<char>, p: &Vec<char>) -> (r: Vec<char>)
    ensures
        r@ == join_path(base@, p@),
{
    if starts_with(p, '/') || base.len() == 0 {
        slice_chars(p, 0, p.len())
    } else if base[base.len() - 1] == '/' {
        concat_chars(base, p)
    } else {
        let sep = vec!['/'];
        let with_sep = concat_chars(base, &sep);
        assert(sep@ =~= seq!['/']);
        concat_chars(&with_sep, p)
    }
}

/// The pieces of `p` between separators.
pub fn split_segments(p: &Vec<char>) -> (r: Vec<Vec<char>>)
    ensures
        views(r@) == segments(p@),
{
    let n = p.len();
    let mut r: Vec<Vec<char>> = Vec::new();
    let mut pos: usize = 0;
    let mut done = false;
    assert(p@.skip(0) =~= p@);
    while !done
        invariant
            n == p.len(),
            pos <= n,
            !done ==> views(r@) + segments(p@.skip(pos as int)) == segments(p@),
            done ==> views(r@) == segments(p@),
        decreases (n - pos) as int + if done {
            0int
        } else {
            1int
        },
    {
        let ghost rest = p@.skip(pos as int);
        match find_char_from(p, '/', pos) {
            Some(i) => {
                let seg = slice_chars(p, pos, i);
                proof {
                    let k = (i - pos) as int;
                    assert(is_first_index(rest, '/', k));
                    let w = choose|w: int| is_first_index(rest, '/', w);
                    lemma_first_index_unique(rest, '/', k, w);
                    assert(rest.take(k) =~= seg@);
                    assert(rest.skip(k + 1) =~= p@.skip(i + 1));
                    assert(segments(rest) == seq![seg@] + segments(p@.skip(i + 1)));
                }
                let ghost old_r = views(r@);
                r.push(seg);
                assert(views(r@) =~= old_r.push(seg@));
                assert(views(r@) + segments(p@.skip(i + 1)) =~= old_r + segments(rest));
                pos = i + 1;
            },
            None => {
                let seg = slice_chars(p, pos, n);
                proof {
                    assert(seg@ =~= rest);
                    assert forall|w: int| !is_first_index(rest, '/', w) by {
                        if 0 <= w < rest.len() {
                            assert(rest[w] == p@[pos + w]);
                        }
                    }
                    assert(segments(rest) == seq![rest]);
                }
                let ghost old_r = views(r@);
                r.push(seg);
                assert(views(r@) =~= old_r.push(seg@));
                assert(views(r@) =~= old_r + segments(rest));
                done = true;
            },
        }
    }
    r
}

/// The segments of `segs` from `a` up to `b`, copied.
pub fn sub_segments(segs: &Vec<Vec<char>>, a: usize, b: usize) -> (r: Vec<Vec<char>>)
    requires
        a <= b <= segs.len(),
    ensures
        views(r@) == views(segs@).subrange(a as int, b as int),
{
    let mut r: Vec<Vec<char>> = Vec::new();
    let mut i: usize = a;
    while i < b
        invariant
            a <= i <= b <= segs.len(),
            views(r@) == views(segs@).subrange(a as int, i as int),
        decreases b - i,
    {
        let seg = slice_chars(&segs[i], 0, segs[i].len());
        assert(seg@ =~= segs@[i as int]@);
        let ghost old_r = views(r@);
        r.push(seg);
        assert(views(segs@)[i as int] == segs@[i as int]@);
        assert(views(r@) =~= old_r.push(seg@));
        assert(views(r@) =~= views(segs@).subrange(a as int, i + 1));
        i = i + 1;
    }
    r
}

/// The index just past the last segment of `segs[..end]` that names a
/// component (0 when there is none).
fn trailing_cut(segs: &Vec<Vec<char>>, end: usize) -> (b: usize)
    requires
        end <= segs.len(),
    ensures
        b <= end,
        forall|k: int| b <= k < end ==> is_skippable(#[trigger] views(segs@)[k]),
        b == 0 || !is_skippable(views(segs@)[b - 1]),
{
    let mut b: usize = end;
    while b > 0 && is_skippable_segment(&segs[b - 1])
        invariant
            b <= end <= segs.len(),
            forall|k: int| b <= k < end ==> is_skippable(#[trigger] views(segs@)[k]),
        decreases b,
    {
        b = b - 1;
    }
    b
}

/// The absolute path with every `.`, `..` and empty segment resolved.
pub fn normalize_chars(p: &Vec<char>) -> (r: Vec<char>)
    ensures
        r@ == normalize_path(p@),
{
    let segs = split_segments(p);
    let mut stack: Vec<Vec<char>> = Vec::new();
    let mut i: usize = 0;
    while i < segs.len()
        invariant
            i <= segs.len(),
            views(segs@) == segments(p@),
            views(stack@) == resolve(views(segs@).take(i as int)),
        decreases segs.len() - i,
    {
        let ghost vs = views(segs@);
        assert(vs.take(i + 1).drop_last() =~= vs.take(i as int));
        assert(vs.take(i + 1).last() == segs[i as int]@);
        assert(resolve(vs.take(i + 1)) == resolve_step(resolve(vs.take(i as int)), segs[i as int]@));
        if is_skippable_segment(&segs[i]) {
        } else if is_parent_ref_segment(&segs[i]) {
            if stack.len() > 0 {
                let ghost old_s = views(stack@);
                let _ = stack.pop();
                assert(views(stack@) =~= old_s.drop_last());
            }
        } else {
            let seg = slice_chars(&segs[i], 0, segs[i].len());
            assert(seg@ =~= segs@[i as int]@);
            let ghost old_s = views(stack@);
            stack.push(seg);
            assert(views(stack@) =~= old_s.push(seg@));
        }
        i = i + 1;
    }
    assert(views(segs@).take(segs.len() as int) =~= views(segs@));
    let slash = vec!['/'];
    assert(slash@ =~= seq!['/']);
    let body = join_chars(&stack, &slash);
    concat_chars(&slash, &body)
}

/// `p.strip_prefix("/")` for an absolute `p`.
pub fn strip_root_chars(p: &Vec<char>) -> (r: Vec<char>)
    requires
        is_absolute(p@),
    ensures
        r@ == strip_root(p@),
{
    let raw = slice_chars(p, 1, p.len());
    assert(raw@ =~= p@.drop_first());
    let segs = split_segments(&raw);
    let n = segs.len();
    let mut a: usize = 0;
    while a < n && is_skippable_segment(&segs[a])
        invariant
            a <= n == segs.len(),
            forall|k: int| 0 <= k < a ==> is_skippable(#[trigger] views(segs@)[k]),
        decreases n - a,
    {
        a = a + 1;
    }
    let mut b: usize = n;
    while b > a && is_skippable_segment(&segs[b - 1])
        invariant
            a <= b <= n == segs.len(),
            forall|k: int| b <= k < n ==> is_skippable(#[trigger] views(segs@)[k]),
        decreases b,
    {
        b = b - 1;
    }
    proof {
        let vs = views(segs@);
        lemma_drop_leading_skip(vs, a as int);
        let t = vs.skip(a as int);
        assert forall|k: int| (b - a) <= k < t.len() implies is_skippable(#[trigger] t[k]) by {
            assert(t[k] == vs[k + a]);
        }
        if b - a > 0 {
            assert(t[b - a - 1] == vs[b - 1]);
        }
        lemma_drop_trailing_take(t, (b - a) as int);
        assert(t.take((b - a) as int) =~= vs.subrange(a as int, b as int));
    }
    let kept = sub_segments(&segs, a, b);
    let slash = vec!['/'];
    assert(slash@ =~= seq!['/']);
    join_chars(&kept, &slash)
}

/// An absolute `path` placed inside `container_dir`, a relative one inside
/// `current_dir`.
pub fn contextualize_chars(container_dir: &Vec<char>, current_dir: &Vec<char>, path: &Vec<char>) -> (r:
    Vec<char>)
    ensures
        r@ == contextualize_path(container_dir@, current_dir@, path@),
{
    if starts_with(path, '/') {
        let rel = strip_root_chars(path);
        join_path_chars(container_dir, &rel)
    } else {
        join_path_chars(current_dir, path)
    }
}

/// `Path::file_name`.
pub fn file_name_chars(p: &Vec<char>) -> (r: Option<Vec<char>>)
    ensures
        match r {
            Some(name) => file_name(p@) == Some(name@),
            None => file_name(p@) is None,
        },
{
    let segs = split_segments(p);
    let b = trailing_cut(&segs, segs.len());
    proof {
        lemma_last_named_at(views(segs@), b - 1);
    }
    if b == 0 {
        None
    } else if is_parent_ref_segment(&segs[b - 1]) {
        None
    } else {
        Some(slice_chars(&segs[b - 1], 0, segs[b - 1].len()))
    }
}

/// Whether `p` starts with the current directory `.`.
fn has_cur_dir_prefix_chars(p: &Vec<char>) -> (b: bool)
    ensures
        b == has_cur_dir_prefix(p@),
{
    if starts_with(p, '/') {
        false
    } else if p.len() == 1 && p[0] == '.' {
        assert(p@ =~= seq!['.']);
        true
    } else {
        assert(p.len() == 1 ==> p@ != seq!['.']);
        p.len() >= 2 && p[0] == '.' && p[1] == '/'
    }
}

/// `Path::parent`.
pub fn parent_chars(p: &Vec<char>) -> (r: Option<Vec<char>>)
    ensures
        match r {
            Some(q) => parent_path(p@) == Some(q@),
            None => parent_path(p@) is None,
        },
{
    let cur = has_cur_dir_prefix_chars(p);
    let pre: usize = if starts_with(p, '/') || cur {
        1
    } else {
        0
    };
    assert(pre <= p.len());
    let rest = slice_chars(p, pre, p.len());
    assert(rest@ =~= p@.skip(pre as int));
    let segs = split_segments(&rest);
    let b = trailing_cut(&segs, segs.len());
    proof {
        lemma_drop_trailing_take(views(segs@), b as int);
    }
    if b > 0 {
        let b2 = trailing_cut(&segs, b - 1);
        proof {
            let body = views(segs@).take(b as int);
            let t = body.drop_last();
            assert(t =~= views(segs@).take(b - 1));
            assert forall|k: int| b2 <= k < t.len() implies is_skippable(#[trigger] t[k]) by {
                assert(t[k] == views(segs@)[k]);
            }
            if b2 > 0 {
                assert(t[b2 - 1] == views(segs@)[b2 - 1]);
            }
            lemma_drop_trailing_take(t, b2 as int);
            assert(t.take(b2 as int) =~= views(segs@).subrange(0, b2 as int));
        }
        let kept = sub_segments(&segs, 0, b2);
        let slash = vec!['/'];
        assert(slash@ =~= seq!['/']);
        let tail = join_chars(&kept, &slash);
        let head = slice_chars(p, 0, pre);
        Some(concat_chars(&head, &tail))
    } else if cur {
        Some(Vec::new())
    } else {
        None
    }
}

} // verus!
