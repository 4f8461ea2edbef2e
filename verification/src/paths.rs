use vstd::prelude::*;

use crate::text::changes_only_ascii_case;

verus! {

/// The characters after the last `/` of `p` (all of `p` when it holds none).
pub open spec fn last_segment(p: Seq<char>) -> Seq<char>
    decreases p.len(),
{
    if p.len() == 0 || p.last() == '/' {
        Seq::empty()
    } else {
        last_segment(p.drop_last()).push(p.last())
    }
}

/// The final component of the Unix path `p`, as `Path::file_name` gives it: trailing
/// separators and `.` components are skipped, and a path that ends in `..`, or that has
/// no normal component, has none.
pub open spec fn file_name(p: Seq<char>) -> Option<Seq<char>>
    decreases p.len(),
{
    if p.len() == 0 {
        None
    } else if p.last() == '/' {
        file_name(p.drop_last())
    } else if last_segment(p) == seq!['.'] {
        file_name(p.drop_last())
    } else if last_segment(p) == seq!['.', '.'] {
        None
    } else {
        Some(last_segment(p))
    }
}

/// The index of the last `.` in `s`, if there is one.
pub open spec fn last_dot(s: Seq<char>) -> Option<int>
    decreases s.len(),
{
    if s.len() == 0 {
        None
    } else if s.last() == '.' {
        Some(s.len() - 1)
    } else {
        last_dot(s.drop_last())
    }
}

/// The part of a file name before its extension: all of it when it has no `.` but a
/// leading one, else what comes before the last `.`.
pub open spec fn stem_of_name(name: Seq<char>) -> Seq<char> {
    match last_dot(name) {
        Some(i) => if i == 0 {
            name
        } else {
            name.take(i)
        },
        None => name,
    }
}

/// The stem of the final component of `p`, as `Path::file_stem` gives it.
pub open spec fn file_stem(p: Seq<char>) -> Option<Seq<char>> {
    match file_name(p) {
        Some(name) => Some(stem_of_name(name)),
        None => None,
    }
}

/// The final component of `p`, or `p` itself when it has none.
pub open spec fn file_name_or_path(p: Seq<char>) -> Seq<char> {
    match file_name(p) {
        Some(name) => name,
        None => p,
    }
}

/// The stem of `p`, or `p` itself when it has none.
pub open spec fn file_stem_or_path(p: Seq<char>) -> Seq<char> {
    match file_stem(p) {
        Some(stem) => stem,
        None => p,
    }
}

/// The stem of the file name of `p`, each step falling back to what it was given.
pub open spec fn path_stem(p: Seq<char>) -> Seq<char> {
    file_stem_or_path(file_name_or_path(p))
}

proof fn lemma_last_segment_split(v: Seq<char>, lo: int, start: int, end: int)
    requires
        0 <= lo <= start <= end <= v.len(),
        forall|k: int| start <= k < end ==> v[k] != '/',
        start == lo || v[start - 1] == '/',
    ensures
        last_segment(v.subrange(lo, end)) == v.subrange(start, end),
    decreases end - start,
{
    if end == start {
        if end > lo {
            assert(v.subrange(lo, end).last() == v[start - 1]);
        }
    } else {
        lemma_last_segment_split(v, lo, start, end - 1);
        assert(v.subrange(lo, end).drop_last() =~= v.subrange(lo, end - 1));
        assert(v.subrange(start, end) =~= v.subrange(start, end - 1).push(v[end - 1]));
    }
}

/// The bounds within `lo..hi` of the final component of the path `v[lo..hi]`.
pub fn file_name_bounds(v: &Vec<char>, lo: usize, hi: usize) -> (r: Option<(usize, usize)>)
    requires
        lo <= hi <= v.len(),
    ensures
        match r {
            Some((a, b)) => lo <= a <= b <= hi && file_name(v@.subrange(lo as int, hi as int))
                == Some(v@.subrange(a as int, b as int)),
            None => file_name(v@.subrange(lo as int, hi as int)) is None,
        },
{
    let mut end = hi;
    loop
        invariant
            lo <= end <= hi <= v.len(),
            file_name(v@.subrange(lo as int, hi as int)) == file_name(
                v@.subrange(lo as int, end as int),
            ),
        decreases end - lo,
    {
        if end == lo {
            return None;
        }
        if v[end - 1] == '/' {
            assert(v@.subrange(lo as int, end as int).drop_last() =~= v@.subrange(
                lo as int,
                end - 1,
            ));
            end -= 1;
        } else {
            let mut start = end;
            while start > lo && v[start - 1] != '/'
                invariant
                    lo <= start <= end <= hi <= v.len(),
                    forall|k: int| start <= k < end ==> v@[k] != '/',
                decreases start - lo,
            {
                start -= 1;
            }
            proof {
                lemma_last_segment_split(v@, lo as int, start as int, end as int);
            }
            let ghost seg = v@.subrange(start as int, end as int);
            if end - start == 1 && v[start] == '.' {
                assert(seg =~= seq!['.']);
                assert(v@.subrange(lo as int, end as int).drop_last() =~= v@.subrange(
                    lo as int,
                    end - 1,
                ));
                end -= 1;
            } else if end - start == 2 && v[start] == '.' && v[start + 1] == '.' {
                assert(seg =~= seq!['.', '.']);
                return None;
            } else {
                assert(seg != seq!['.']) by {
                    if seg == seq!['.'] {
                        assert(seg.len() == 1);
                        assert(seg[0] == v@[start as int]);
                    }
                }
                assert(seg != seq!['.', '.']) by {
                    if seg == seq!['.', '.'] {
                        assert(seg.len() == 2);
                        assert(seg[0] == v@[start as int]);
                        assert(seg[1] == v@[start + 1]);
                    }
                }
                return Some((start, end));
            }
        }
    }
}

/// The index within `lo..hi` of the last `.` of `v[lo..hi]`.
fn last_dot_index(v: &Vec<char>, lo: usize, hi: usize) -> (r: Option<usize>)
    requires
        lo <= hi <= v.len(),
    ensures
        match r {
            Some(i) => lo <= i < hi && last_dot(v@.subrange(lo as int, hi as int)) == Some(
                i - lo,
            ),
            None => last_dot(v@.subrange(lo as int, hi as int)) is None,
        },
{
    let mut end = hi;
    while end > lo && v[end - 1] != '.'
        invariant
            lo <= end <= hi <= v.len(),
            last_dot(v@.subrange(lo as int, hi as int)) == last_dot(
                v@.subrange(lo as int, end as int),
            ),
        decreases end - lo,
    {
        assert(v@.subrange(lo as int, end as int).drop_last() =~= v@.subrange(lo as int, end - 1));
        end -= 1;
    }
    if end == lo {
        None
    } else {
        Some(end - 1)
    }
}

/// The bounds within `lo..hi` of the stem of the path `v[lo..hi]`.
pub fn file_stem_bounds(v: &Vec<char>, lo: usize, hi: usize) -> (r: Option<(usize, usize)>)
    requires
        lo <= hi <= v.len(),
    ensures
        match r {
            Some((a, b)) => lo <= a <= b <= hi && file_stem(v@.subrange(lo as int, hi as int))
                == Some(v@.subrange(a as int, b as int)),
            None => file_stem(v@.subrange(lo as int, hi as int)) is None,
        },
{
    match file_name_bounds(v, lo, hi) {
        None => None,
        Some((a, b)) => {
            match last_dot_index(v, a, b) {
                Some(i) => {
                    if i == a {
                        Some((a, b))
                    } else {
                        assert(v@.subrange(a as int, b as int).take(i - a) =~= v@.subrange(
                            a as int,
                            i as int,
                        ));
                        Some((a, i))
                    }
                },
                None => Some((a, b)),
            }
        },
    }
}

/// The bounds within `lo..hi` of `path_stem(v[lo..hi])`.
pub fn path_stem_bounds(v: &Vec<char>, lo: usize, hi: usize) -> (r: (usize, usize))
    requires
        lo <= hi <= v.len(),
    ensures
        lo <= r.0 <= r.1 <= hi,
        v@.subrange(r.0 as int, r.1 as int) == path_stem(v@.subrange(lo as int, hi as int)),
{
    let (a, b) = match file_name_bounds(v, lo, hi) {
        Some((a, b)) => (a, b),
        None => (lo, hi),
    };
    match file_stem_bounds(v, a, b) {
        Some((c, d)) => (c, d),
        None => (a, b),
    }
}

proof fn lemma_last_segment_case_map(p: Seq<char>, f: spec_fn(char) -> char)
    requires
        changes_only_ascii_case(f),
    ensures
        last_segment(p.map_values(f)) == last_segment(p).map_values(f),
    decreases p.len(),
{
    let m = p.map_values(f);
    if p.len() > 0 {
        assert(m.last() == f(p.last()));
        assert((f(p.last()) == '/') == (p.last() == '/'));
        assert(m.drop_last() =~= p.drop_last().map_values(f));
        lemma_last_segment_case_map(p.drop_last(), f);
        if p.last() != '/' {
            assert(last_segment(p).map_values(f) =~= last_segment(p.drop_last()).map_values(
                f,
            ).push(f(p.last())));
        }
    } else {
        assert(last_segment(p).map_values(f) =~= Seq::<char>::empty());
    }
}

proof fn lemma_dots_case_map(seg: Seq<char>, f: spec_fn(char) -> char)
    requires
        changes_only_ascii_case(f),
    ensures
        (seg.map_values(f) == seq!['.']) == (seg == seq!['.']),
        (seg.map_values(f) == seq!['.', '.']) == (seg == seq!['.', '.']),
{
    let m = seg.map_values(f);
    if seg.len() >= 1 {
        assert(m[0] == f(seg[0]));
        assert((f(seg[0]) == '.') == (seg[0] == '.'));
    }
    if seg.len() >= 2 {
        assert(m[1] == f(seg[1]));
        assert((f(seg[1]) == '.') == (seg[1] == '.'));
    }
    if seg.len() == 1 && seg[0] == '.' {
        assert(seg =~= seq!['.']);
        assert(m =~= seq!['.']);
    }
    if seg.len() == 2 && seg[0] == '.' && seg[1] == '.' {
        assert(seg =~= seq!['.', '.']);
        assert(m =~= seq!['.', '.']);
    }
    if m == seq!['.'] {
        assert(m.len() == 1 && m[0] == '.');
    }
    if m == seq!['.', '.'] {
        assert(m.len() == 2 && m[0] == '.' && m[1] == '.');
    }
    if seg == seq!['.'] {
        assert(seg.len() == 1 && seg[0] == '.');
    }
    if seg == seq!['.', '.'] {
        assert(seg.len() == 2 && seg[0] == '.' && seg[1] == '.');
    }
}

proof fn lemma_file_name_case_map(p: Seq<char>, f: spec_fn(char) -> char)
    requires
        changes_only_ascii_case(f),
    ensures
        file_name(p.map_values(f)) == match file_name(p) {
            Some(name) => Some(name.map_values(f)),
            None => None,
        },
    decreases p.len(),
{
    let m = p.map_values(f);
    if p.len() > 0 {
        assert(m.last() == f(p.last()));
        assert((f(p.last()) == '/') == (p.last() == '/'));
        assert(m.drop_last() =~= p.drop_last().map_values(f));
        lemma_last_segment_case_map(p, f);
        lemma_dots_case_map(last_segment(p), f);
        lemma_file_name_case_map(p.drop_last(), f);
    }
}

proof fn lemma_last_dot_case_map(s: Seq<char>, f: spec_fn(char) -> char)
    requires
        changes_only_ascii_case(f),
    ensures
        last_dot(s.map_values(f)) == last_dot(s),
    decreases s.len(),
{
    let m = s.map_values(f);
    if s.len() > 0 {
        assert(m.last() == f(s.last()));
        assert((f(s.last()) == '.') == (s.last() == '.'));
        assert(m.drop_last() =~= s.drop_last().map_values(f));
        lemma_last_dot_case_map(s.drop_last(), f);
    }
}

proof fn lemma_last_dot_bounds(s: Seq<char>)
    ensures
        last_dot(s) matches Some(i) ==> 0 <= i < s.len() && s[i] == '.',
    decreases s.len(),
{
    if s.len() > 0 && s.last() != '.' {
        lemma_last_dot_bounds(s.drop_last());
    }
}

/// The last segment of `q + seg` is `seg` when `seg` has no `/` and `q` is empty or ends
/// in one.
pub proof fn lemma_last_segment_after_separator(q: Seq<char>, seg: Seq<char>)
    requires
        q.len() == 0 || q.last() == '/',
        forall|k: int| 0 <= k < seg.len() ==> seg[k] != '/',
    ensures
        last_segment(q + seg) == seg,
    decreases seg.len(),
{
    if seg.len() == 0 {
        assert(q + seg =~= q);
    } else {
        assert((q + seg).drop_last() =~= q + seg.drop_last());
        assert((q + seg).last() == seg.last());
        lemma_last_segment_after_separator(q, seg.drop_last());
        assert(seg =~= seg.drop_last().push(seg.last()));
    }
}

/// The file name of `q + seg` is `seg` when `seg` is a normal component: not empty, not `.`
/// or `..`, without `/`, after an empty `q` or one ending in `/`.
pub proof fn lemma_file_name_after_separator(q: Seq<char>, seg: Seq<char>)
    requires
        q.len() == 0 || q.last() == '/',
        seg.len() > 0,
        forall|k: int| 0 <= k < seg.len() ==> seg[k] != '/',
        seg != seq!['.'],
        seg != seq!['.', '.'],
    ensures
        file_name(q + seg) == Some(seg),
{
    lemma_last_segment_after_separator(q, seg);
    assert((q + seg).last() == seg[seg.len() - 1]);
}

/// The last `.` of `x + "." + e` is the one after `x` when `e` holds none.
pub proof fn lemma_last_dot_before_extension(x: Seq<char>, e: Seq<char>)
    requires
        forall|k: int| 0 <= k < e.len() ==> e[k] != '.',
    ensures
        last_dot(x + seq!['.'] + e) == Some(x.len() as int),
    decreases e.len(),
{
    let p = x + seq!['.'] + e;
    if e.len() == 0 {
        assert(p =~= x.push('.'));
    } else {
        assert(p.drop_last() =~= x + seq!['.'] + e.drop_last());
        assert(p.last() == e.last());
        lemma_last_dot_before_extension(x, e.drop_last());
    }
}

/// A sequence with no `.` has no last `.`.
pub proof fn lemma_last_dot_none(s: Seq<char>)
    requires
        forall|k: int| 0 <= k < s.len() ==> s[k] != '.',
    ensures
        last_dot(s) is None,
    decreases s.len(),
{
    if s.len() > 0 {
        lemma_last_dot_none(s.drop_last());
    }
}

/// The stem of a path commutes with a map that changes only ASCII case.
pub proof fn lemma_path_stem_case_map(p: Seq<char>, f: spec_fn(char) -> char)
    requires
        changes_only_ascii_case(f),
    ensures
        path_stem(p.map_values(f)) == path_stem(p).map_values(f),
{
    lemma_file_name_case_map(p, f);
    let n = file_name_or_path(p);
    assert(file_name_or_path(p.map_values(f)) == n.map_values(f));
    lemma_file_name_case_map(n, f);
    match file_name(n) {
        Some(name) => {
            lemma_last_dot_case_map(name, f);
            lemma_last_dot_bounds(name);
            match last_dot(name) {
                Some(i) => {
                    if i != 0 {
                        assert(name.map_values(f).take(i) =~= name.take(i).map_values(f));
                    }
                },
                None => {},
            }
        },
        None => {},
    }
}

/// The Unix path `rel` joined onto `base`, as `Path::join` does: an absolute `rel` replaces
/// `base`, and a separator goes between them unless `base` is empty or already ends in one.
pub open spec fn path_join(base: Seq<char>, rel: Seq<char>) -> Seq<char> {
    if rel.len() > 0 && rel[0] == '/' {
        rel
    } else if base.len() > 0 && base.last() != '/' {
        base + seq!['/'] + rel
    } else {
        base + rel
    }
}

/// Joins the path `rel` onto `base` (see `path_join`).
pub fn join_path(base: &str, rel: &str) -> (r: String)
    ensures
        r@ == path_join(base@, rel@),
{
    let rel_len = rel.unicode_len();
    if rel_len > 0 && rel.get_char(0) == '/' {
        return String::from_str(rel);
    }
    let base_len = base.unicode_len();
    let mut joined = String::from_str(base);
    if base_len > 0 && base.get_char(base_len - 1) != '/' {
        joined.push('/');
    }
    joined.append(rel);
    joined
}

/// The pieces of `s` between occurrences of `sep`, empty ones included: one more piece
/// than `s` holds separators.
pub open spec fn split_on(s: Seq<char>, sep: char) -> Seq<Seq<char>>
    decreases s.len(),
{
    if s.len() == 0 {
        seq![Seq::empty()]
    } else {
        let prev = split_on(s.drop_last(), sep);
        if s.last() == sep {
            prev.push(Seq::empty())
        } else {
            prev.update(prev.len() - 1, prev.last().push(s.last()))
        }
    }
}

/// The character sequences held by an optional string slice.
pub open spec fn str_option_view(o: Option<&str>) -> Option<Seq<char>> {
    match o {
        Some(s) => Some(s@),
        None => None,
    }
}

/// Each of the paths listed in `list`, which separates them with `:` as `std::env::split_paths`
/// reads it, joined with `rel`.
pub open spec fn joined_path_list(list: Seq<char>, rel: Seq<char>) -> Seq<Seq<char>> {
    split_on(list, ':').map_values(|p: Seq<char>| path_join(p, rel))
}

/// Joins `rel` onto each path of the `:`-separated list `list` (see `joined_path_list`).
pub fn join_path_list(list: &str, rel: &str) -> (r: Vec<String>)
    ensures
        r@.map_values(|s: String| s@) == joined_path_list(list@, rel@),
{
    let v = crate::text::chars_of(list);
    let mut out: Vec<String> = Vec::new();
    let mut start: usize = 0;
    let mut k: usize = 0;
    let ghost mut done: Seq<Seq<char>> = Seq::empty();
    assert(v@.take(0) =~= Seq::<char>::empty());
    assert(v@.subrange(0, 0) =~= Seq::<char>::empty());
    while k < v.len()
        invariant
            0 <= start <= k <= v.len(),
            v@ == list@,
            split_on(v@.take(k as int), ':') == done.push(v@.subrange(start as int, k as int)),
            out@.map_values(|s: String| s@) == done.map_values(|p: Seq<char>| path_join(p, rel@)),
        decreases v.len() - k,
    {
        let ghost prefix = v@.take(k + 1);
        assert(prefix.drop_last() =~= v@.take(k as int));
        assert(prefix.last() == v@[k as int]);
        if v[k] == ':' {
            let piece = crate::text::string_from_range(&v, start, k);
            let joined = join_path(piece.as_str(), rel);
            let ghost before = out@;
            out.push(joined);
            assert(out@.map_values(|s: String| s@) =~= before.map_values(|s: String| s@).push(
                joined@,
            ));
            proof {
                done = done.push(v@.subrange(start as int, k as int));
            }
            assert(done.map_values(|p: Seq<char>| path_join(p, rel@)) =~= done.drop_last().map_values(
                |p: Seq<char>| path_join(p, rel@),
            ).push(path_join(done.last(), rel@)));
            start = k + 1;
            assert(v@.subrange(start as int, k + 1) =~= Seq::<char>::empty());
        } else {
            assert(v@.subrange(start as int, k + 1) =~= v@.subrange(start as int, k as int).push(
                v@[k as int],
            ));
        }
        k += 1;
    }
    let piece = crate::text::string_from_range(&v, start, v.len());
    let joined = join_path(piece.as_str(), rel);
    let ghost before = out@;
    out.push(joined);
    assert(v@.take(v.len() as int) =~= v@);
    let ghost all = done.push(v@.subrange(start as int, v.len() as int));
    assert(out@.map_values(|s: String| s@) =~= before.map_values(|s: String| s@).push(joined@));
    assert(all.map_values(|p: Seq<char>| path_join(p, rel@)) =~= done.map_values(
        |p: Seq<char>| path_join(p, rel@),
    ).push(path_join(all.last(), rel@)));
    out
}

} // verus!
