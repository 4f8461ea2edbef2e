use vstd::prelude::*;

use crate::paths::path_stem;
use crate::paths::file_name;
use crate::paths::lemma_file_name_after_separator;
use crate::paths::lemma_last_dot_before_extension;
use crate::paths::lemma_last_dot_none;
use crate::paths::lemma_path_stem_case_map;
use crate::paths::path_stem_bounds;
use crate::text::ascii_lower;
use crate::text::ascii_lowercase;
use crate::text::ascii_upper;
use crate::text::ascii_uppercase;
use crate::text::changes_only_ascii_case;
use crate::text::lemma_ascii_case_maps;
use crate::text::lemma_trim_case_map;
use crate::text::lemma_trim_start_concat;
use crate::text::lemma_trim_unchanged;
use crate::text::unicode_white_space;
use crate::text::chars_of;
use crate::text::is_ascii_alnum;
use crate::text::is_ascii_alnum_char;
use crate::text::is_ascii_upper;
use crate::text::lower_char;
use crate::text::lowercase_from_range;
use crate::text::trim;
use crate::text::trim_bounds;

verus! {

/// The character sequences held by a sequence of strings.
pub open spec fn views(v: Seq<String>) -> Seq<Seq<char>> {
    v.map_values(|s: String| s@)
}

/// A focus candidate reduced to the form window app ids are compared in: trimmed, reduced
/// to the stem of its file name, trimmed again and put in ASCII lower case; blank input
/// gives the empty string.
pub open spec fn normalized_candidate(s: Seq<char>) -> Seq<char> {
    let t = trim(s);
    if t.len() == 0 {
        Seq::empty()
    } else {
        ascii_lowercase(trim(path_stem(t)))
    }
}

proof fn lemma_normalize_case_map(s: Seq<char>, f: spec_fn(char) -> char)
    requires
        changes_only_ascii_case(f),
    ensures
        normalized_candidate(s.map_values(f)) == normalized_candidate(s),
{
    let t = trim(s);
    lemma_trim_case_map(s, f);
    if t.len() > 0 {
        lemma_path_stem_case_map(t, f);
        let st = path_stem(t);
        lemma_trim_case_map(st, f);
        let x = trim(st);
        assert(ascii_lowercase(x.map_values(f)) =~= ascii_lowercase(x)) by {
            assert forall|k: int| 0 <= k < x.len() implies #[trigger] ascii_lowercase(
                x.map_values(f),
            )[k] == ascii_lowercase(x)[k] by {
                assert(ascii_lower(f(x[k])) == ascii_lower(x[k]));
            }
        }
    }
}

/// Normalizing ignores ASCII case: upper- or lower-casing a candidate first changes nothing.
pub proof fn lemma_normalize_ignores_ascii_case(s: Seq<char>)
    ensures
        normalized_candidate(ascii_uppercase(s)) == normalized_candidate(s),
        normalized_candidate(ascii_lowercase(s)) == normalized_candidate(s),
{
    lemma_ascii_case_maps();
    let up = |c: char| ascii_upper(c);
    let low = |c: char| ascii_lower(c);
    assert(ascii_uppercase(s) =~= s.map_values(up));
    assert(ascii_lowercase(s) =~= s.map_values(low));
    lemma_normalize_case_map(s, up);
    lemma_normalize_case_map(s, low);
}

/// Whether `s` is a plain file-name part: not empty, made of ASCII letters, digits, `_` and
/// `-`.
pub open spec fn is_plain_name(s: Seq<char>) -> bool {
    &&& s.len() > 0
    &&& forall|k: int| 0 <= k < s.len() ==> is_ascii_alnum(#[trigger] s[k]) || s[k] == '_' || s[k] == '-'
}

proof fn lemma_plain_name_chars(s: Seq<char>)
    requires
        is_plain_name(s),
    ensures
        forall|k: int|
            0 <= k < s.len() ==> !unicode_white_space(#[trigger] s[k]) && s[k] != '/' && s[k]
                != '.',
{
    assert forall|k: int| 0 <= k < s.len() implies !unicode_white_space(#[trigger] s[k]) && s[k]
        != '/' && s[k] != '.' by {
        assert(is_ascii_alnum(s[k]) || s[k] == '_' || s[k] == '-');
    }
}

/// What `normalized_candidate` makes of a path `t` that has no white space at either end and
/// whose final component is the plain `name`, possibly followed by `.` and a plain extension.
proof fn lemma_normalize_final_name(t: Seq<char>, q: Seq<char>, name: Seq<char>, rest: Seq<char>)
    requires
        is_plain_name(name),
        rest == name || exists|ext: Seq<char>| is_plain_name(ext) && rest == name + seq!['.'] + ext,
        q.len() == 0 || q.last() == '/',
        t == q + rest,
        trim(t) == t,
    ensures
        normalized_candidate(t) == ascii_lowercase(name),
{
    lemma_plain_name_chars(name);
    assert(!unicode_white_space(name[0]));
    assert(!unicode_white_space(name.last()));
    if rest == name {
        lemma_file_name_after_separator(q, name);
        lemma_file_name_after_separator(Seq::empty(), name);
        assert(Seq::<char>::empty() + name =~= name);
        lemma_last_dot_none(name);
    } else {
        let ext = choose|ext: Seq<char>| is_plain_name(ext) && rest == name + seq!['.'] + ext;
        lemma_plain_name_chars(ext);
        assert forall|k: int| 0 <= k < rest.len() implies rest[k] != '/' by {
            if k < name.len() {
                assert(rest[k] == name[k]);
            } else if k > name.len() {
                assert(rest[k] == ext[k - name.len() - 1]);
            }
        }
        assert(rest != seq!['.']) by {
            assert(rest.len() >= 3);
        }
        assert(rest != seq!['.', '.']) by {
            assert(rest.len() >= 3);
        }
        lemma_file_name_after_separator(q, rest);
        lemma_file_name_after_separator(Seq::empty(), rest);
        assert(Seq::<char>::empty() + rest =~= rest);
        lemma_last_dot_before_extension(name, ext);
        assert(rest.take(name.len() as int) =~= name);
    }
    lemma_trim_unchanged(name);
}

/// A plain name normalizes to itself in lower case, after any directory and with any plain
/// extension.
pub proof fn lemma_normalize_plain_name(dir: Seq<char>, name: Seq<char>, ext: Seq<char>)
    requires
        is_plain_name(name),
        is_plain_name(ext),
    ensures
        normalized_candidate(name) == ascii_lowercase(name),
        normalized_candidate(dir + seq!['/'] + name) == ascii_lowercase(name),
        normalized_candidate(dir + seq!['/'] + name + seq!['.'] + ext) == ascii_lowercase(name),
{
    lemma_plain_name_chars(name);
    lemma_plain_name_chars(ext);
    // the bare name
    lemma_trim_unchanged(name);
    assert(Seq::<char>::empty() + name =~= name);
    lemma_normalize_final_name(name, Seq::empty(), name, name);
    // a directory, then the name, with or without an extension
    let dotted = name + seq!['.'] + ext;
    assert(dotted.last() == ext.last());
    lemma_trim_unchanged(dotted);
    assert(dotted[0] == name[0]);
    assert(!unicode_white_space(dotted[0]));
    assert(!unicode_white_space(dotted.last()));
    let d = crate::text::trim_start(dir);
    crate::text::lemma_trim_start_suffix(dir);
    assert forall|rest: Seq<char>|
        (rest == name || rest == dotted) implies #[trigger] normalized_candidate(
        dir + seq!['/'] + rest,
    ) == ascii_lowercase(name) by {
        let tail = seq!['/'] + rest;
        assert(dir + seq!['/'] + rest =~= dir + tail);
        assert(tail[0] == '/');
        lemma_trim_start_concat(dir, tail);
        let t = d + tail;
        assert(t =~= (d + seq!['/']) + rest);
        assert(t.last() == rest.last());
        assert(t[0] == (if d.len() > 0 { d[0] } else { '/' }));
        lemma_trim_unchanged(t);
        assert(crate::text::trim_end(t) == t);
        assert(trim(dir + tail) == t);
        assert((d + seq!['/']).last() == '/');
        if rest == dotted {
            assert(exists|e: Seq<char>| is_plain_name(e) && rest == name + seq!['.'] + e);
        }
        lemma_normalize_final_name(t, d + seq!['/'], name, rest);
    }
    assert(dir + seq!['/'] + name + seq!['.'] + ext =~= dir + seq!['/'] + dotted);
}

/// Normalizes one focus candidate (see `normalized_candidate`).
pub fn normalize_focus_candidate(candidate: &str) -> (r: String)
    ensures
        r@ == normalized_candidate(candidate@),
        forall|i: int| 0 <= i < r@.len() ==> !is_ascii_upper(#[trigger] r@[i]),
{
    let v = chars_of(candidate);
    assert(v@.subrange(0, v@.len() as int) =~= v@);
    let (a, b) = trim_bounds(&v, 0, v.len());
    if a == b {
        return String::new();
    }
    let (c, d) = path_stem_bounds(&v, a, b);
    let (e, f) = trim_bounds(&v, c, d);
    let r = lowercase_from_range(&v, e, f);
    assert forall|i: int| 0 <= i < r@.len() implies !is_ascii_upper(#[trigger] r@[i]) by {
        let c = v@.subrange(e as int, f as int)[i];
        assert(r@[i] == ascii_lower(c));
    }
    r
}

/// Whether `v` holds a string equal to `s`.
pub fn contains_string(v: &Vec<String>, s: &String) -> (r: bool)
    ensures
        r == views(v@).contains(s@),
{
    let mut i: usize = 0;
    while i < v.len()
        invariant
            0 <= i <= v.len(),
            forall|k: int| 0 <= k < i ==> v@[k]@ != s@,
        decreases v.len() - i,
    {
        if v[i] == *s {
            assert(views(v@)[i as int] == s@);
            return true;
        }
        i += 1;
    }
    assert forall|k: int| 0 <= k < views(v@).len() implies views(v@)[k] != s@ by {
        assert(views(v@)[k] == v@[k]@);
    }
    false
}

/// The normalized candidates in the order they first occur, blank ones and repeats left out.
pub open spec fn deduped_candidates(s: Seq<Seq<char>>) -> Seq<Seq<char>>
    decreases s.len(),
{
    if s.len() == 0 {
        Seq::empty()
    } else {
        let prev = deduped_candidates(s.drop_last());
        let next = normalized_candidate(s.last());
        if next.len() == 0 || prev.contains(next) {
            prev
        } else {
            prev.push(next)
        }
    }
}

/// Normalizes every candidate and keeps the first occurrence of each non-empty result.
pub fn dedupe_focus_candidates(candidates: Vec<String>) -> (r: Vec<String>)
    ensures
        views(r@) == deduped_candidates(views(candidates@)),
{
    let mut normalized: Vec<String> = Vec::new();
    let mut i: usize = 0;
    while i < candidates.len()
        invariant
            0 <= i <= candidates.len(),
            views(normalized@) == deduped_candidates(views(candidates@).take(i as int)),
        decreases candidates.len() - i,
    {
        let next = normalize_focus_candidate(candidates[i].as_str());
        let ghost prefix = views(candidates@).take(i + 1);
        assert(prefix.drop_last() =~= views(candidates@).take(i as int));
        assert(prefix.last() == candidates@[i as int]@);
        if next.as_str().is_empty() || contains_string(&normalized, &next) {
        } else {
            let ghost before = normalized@;
            normalized.push(next);
            assert(views(normalized@) =~= views(before).push(next@));
        }
        i += 1;
    }
    assert(views(candidates@).take(candidates.len() as int) =~= views(candidates@));
    normalized
}

/// The maximal runs of ASCII letters and digits in `s`, each in ASCII lower case, in order.
pub open spec fn focus_tokens(s: Seq<char>) -> Seq<Seq<char>>
    decreases s.len(),
{
    if s.len() == 0 {
        Seq::empty()
    } else {
        let prev = focus_tokens(s.drop_last());
        let c = s.last();
        if !is_ascii_alnum(c) {
            prev
        } else if s.len() >= 2 && is_ascii_alnum(s[s.len() - 2]) {
            prev.update(prev.len() - 1, prev.last().push(ascii_lower(c)))
        } else {
            prev.push(seq![ascii_lower(c)])
        }
    }
}

proof fn lemma_focus_tokens_nonempty(s: Seq<char>)
    requires
        s.len() > 0,
        is_ascii_alnum(s.last()),
    ensures
        focus_tokens(s).len() > 0,
    decreases s.len(),
{
    if s.len() >= 2 && is_ascii_alnum(s[s.len() - 2]) {
        lemma_focus_tokens_nonempty(s.drop_last());
    }
}

/// Whether `t` could be a focus token: not empty, made of ASCII letters and digits, none
/// of them upper case.
pub open spec fn is_focus_token(t: Seq<char>) -> bool {
    &&& t.len() > 0
    &&& forall|k: int| 0 <= k < t.len() ==> is_ascii_alnum(#[trigger] t[k]) && !is_ascii_upper(t[k])
}

/// Every token is a non-empty run of lower-case ASCII letters and digits.
pub proof fn lemma_focus_tokens_shape(s: Seq<char>)
    ensures
        forall|i: int| 0 <= i < focus_tokens(s).len() ==> is_focus_token(#[trigger] focus_tokens(s)[i]),
    decreases s.len(),
{
    if s.len() > 0 {
        lemma_focus_tokens_shape(s.drop_last());
        let prev = focus_tokens(s.drop_last());
        let c = s.last();
        let l = ascii_lower(c);
        if is_ascii_alnum(c) {
            assert(is_ascii_alnum(l) && !is_ascii_upper(l));
            let t = focus_tokens(s);
            if s.len() >= 2 && is_ascii_alnum(s[s.len() - 2]) {
                lemma_focus_tokens_nonempty(s.drop_last());
                let last = prev.last().push(l);
                assert(is_focus_token(prev[prev.len() - 1]));
                assert forall|k: int| 0 <= k < last.len() implies is_ascii_alnum(#[trigger] last[k])
                    && !is_ascii_upper(last[k]) by {
                    if k < last.len() - 1 {
                        assert(last[k] == prev[prev.len() - 1][k]);
                    }
                }
                assert forall|i: int| 0 <= i < t.len() implies is_focus_token(#[trigger] t[i]) by {
                    if i < t.len() - 1 {
                        assert(t[i] == prev[i]);
                    } else {
                        assert(t[i] == last);
                    }
                }
            } else {
                assert forall|i: int| 0 <= i < t.len() implies is_focus_token(#[trigger] t[i]) by {
                    if i < t.len() - 1 {
                        assert(t[i] == prev[i]);
                    } else {
                        assert(t[i] =~= seq![l]);
                    }
                }
            }
        }
    }
}

/// Tokens on either side of a separator stay apart: the tokens of `a`, a character that is
/// not an ASCII letter or digit, and `b` are those of `a` followed by those of `b`.
pub proof fn lemma_focus_tokens_concat(a: Seq<char>, sep: char, b: Seq<char>)
    requires
        !is_ascii_alnum(sep),
    ensures
        focus_tokens(a + seq![sep] + b) == focus_tokens(a) + focus_tokens(b),
    decreases b.len(),
{
    let x = a + seq![sep];
    assert(a + seq![sep] + b =~= x + b);
    if b.len() == 0 {
        assert(x + b =~= x);
        assert(x.drop_last() =~= a);
        assert(focus_tokens(b) =~= Seq::<Seq<char>>::empty());
        assert(focus_tokens(a) + focus_tokens(b) =~= focus_tokens(a));
    } else {
        let s = x + b;
        assert(s.drop_last() =~= a + seq![sep] + b.drop_last());
        assert(s.last() == b.last());
        lemma_focus_tokens_concat(a, sep, b.drop_last());
        let prev_a = focus_tokens(a);
        let prev_b = focus_tokens(b.drop_last());
        let c = b.last();
        if is_ascii_alnum(c) {
            if b.len() >= 2 {
                assert(s[s.len() - 2] == b[b.len() - 2]);
            } else {
                assert(s[s.len() - 2] == sep);
            }
            if b.len() >= 2 && is_ascii_alnum(b[b.len() - 2]) {
                assert(b.drop_last().last() == b[b.len() - 2]);
                lemma_focus_tokens_nonempty(b.drop_last());
                let joined = prev_a + prev_b;
                assert(joined.update(joined.len() - 1, joined.last().push(ascii_lower(c)))
                    =~= prev_a + prev_b.update(prev_b.len() - 1, prev_b.last().push(ascii_lower(c))));
            } else {
                assert((prev_a + prev_b).push(seq![ascii_lower(c)]) =~= prev_a + prev_b.push(
                    seq![ascii_lower(c)],
                ));
            }
        }
    }
}

proof fn lemma_focus_tokens_case_map(s: Seq<char>, f: spec_fn(char) -> char)
    requires
        changes_only_ascii_case(f),
    ensures
        focus_tokens(s.map_values(f)) == focus_tokens(s),
    decreases s.len(),
{
    let m = s.map_values(f);
    if s.len() > 0 {
        assert(m.drop_last() =~= s.drop_last().map_values(f));
        assert(m.last() == f(s.last()));
        lemma_focus_tokens_case_map(s.drop_last(), f);
        assert(is_ascii_alnum(f(s.last())) == is_ascii_alnum(s.last()));
        assert(ascii_lower(f(s.last())) == ascii_lower(s.last()));
        if s.len() >= 2 {
            assert(m[m.len() - 2] == f(s[s.len() - 2]));
            assert(is_ascii_alnum(f(s[s.len() - 2])) == is_ascii_alnum(s[s.len() - 2]));
        }
    }
}

/// Tokens ignore ASCII case.
pub proof fn lemma_focus_tokens_ignore_ascii_case(s: Seq<char>)
    ensures
        focus_tokens(ascii_uppercase(s)) == focus_tokens(s),
        focus_tokens(ascii_lowercase(s)) == focus_tokens(s),
{
    lemma_ascii_case_maps();
    let up = |c: char| ascii_upper(c);
    let low = |c: char| ascii_lower(c);
    assert(ascii_uppercase(s) =~= s.map_values(up));
    assert(ascii_lowercase(s) =~= s.map_values(low));
    lemma_focus_tokens_case_map(s, up);
    lemma_focus_tokens_case_map(s, low);
}

/// Splits `value` into lower-case ASCII alphanumeric tokens (see `focus_tokens`).
pub fn normalize_focus_tokens(value: &str) -> (r: Vec<String>)
    ensures
        views(r@) == focus_tokens(value@),
        forall|i: int| 0 <= i < r@.len() ==> is_focus_token(#[trigger] r@[i]@),
{
    proof {
        lemma_focus_tokens_shape(value@);
    }
    let v = chars_of(value);
    let mut out: Vec<String> = Vec::new();
    let mut cur = String::new();
    let mut i: usize = 0;
    while i < v.len()
        invariant
            0 <= i <= v.len(),
            v@ == value@,
            cur@.len() > 0 ==> i > 0 && is_ascii_alnum(v@[i - 1]) && views(out@).push(cur@)
                == focus_tokens(v@.take(i as int)),
            cur@.len() == 0 ==> (i == 0 || !is_ascii_alnum(v@[i - 1])) && views(out@)
                == focus_tokens(v@.take(i as int)),
        decreases v.len() - i,
    {
        let c = v[i];
        let ghost prefix = v@.take(i + 1);
        assert(prefix.drop_last() =~= v@.take(i as int));
        assert(prefix.last() == c);
        if is_ascii_alnum_char(c) {
            let was_empty = cur.as_str().is_empty();
            cur.push(lower_char(c));
            if !was_empty {
                assert(prefix[prefix.len() - 2] == v@[i - 1]);
                let ghost prev = focus_tokens(v@.take(i as int));
                assert(views(out@).push(cur@) =~= prev.update(
                    prev.len() - 1,
                    prev.last().push(ascii_lower(c)),
                ));
            } else {
                if i > 0 {
                    assert(prefix[prefix.len() - 2] == v@[i - 1]);
                }
                assert(cur@ =~= seq![ascii_lower(c)]);
            }
        } else {
            if !cur.as_str().is_empty() {
                let ghost before = out@;
                out.push(cur);
                assert(views(out@) =~= views(before).push(out@.last()@));
                cur = String::new();
            }
        }
        i += 1;
    }
    if !cur.as_str().is_empty() {
        let ghost before = out@;
        out.push(cur);
        assert(views(out@) =~= views(before).push(out@.last()@));
    }
    assert(v@.take(v.len() as int) =~= v@);
    assert forall|i: int| 0 <= i < out@.len() implies is_focus_token(#[trigger] out@[i]@) by {
        assert(views(out@)[i] == out@[i]@);
    }
    out
}

/// Whether every token of `candidate` is also a whole token of `title`, both having tokens.
pub open spec fn title_matches(title: Seq<char>, candidate: Seq<char>) -> bool {
    let title_tokens = focus_tokens(title);
    let candidate_tokens = focus_tokens(candidate);
    &&& title_tokens.len() > 0
    &&& candidate_tokens.len() > 0
    &&& forall|i: int| 0 <= i < candidate_tokens.len() ==> title_tokens.contains(
        #[trigger] candidate_tokens[i],
    )
}

/// Whether a window title names a focus candidate, token by token.
pub fn title_matches_focus_candidate(title: &str, candidate: &str) -> (r: bool)
    ensures
        r == title_matches(title@, candidate@),
{
    let title_tokens = normalize_focus_tokens(title);
    let candidate_tokens = normalize_focus_tokens(candidate);
    if title_tokens.len() == 0 || candidate_tokens.len() == 0 {
        return false;
    }
    let mut i: usize = 0;
    while i < candidate_tokens.len()
        invariant
            0 <= i <= candidate_tokens.len(),
            views(title_tokens@) == focus_tokens(title@),
            views(candidate_tokens@) == focus_tokens(candidate@),
            forall|k: int|
                0 <= k < i ==> focus_tokens(title@).contains(
                    #[trigger] focus_tokens(candidate@)[k],
                ),
        decreases candidate_tokens.len() - i,
    {
        assert(views(candidate_tokens@)[i as int] == candidate_tokens@[i as int]@);
        if !contains_string(&title_tokens, &candidate_tokens[i]) {
            return false;
        }
        i += 1;
    }
    true
}

/// When a niri window last had focus.
#[derive(Clone, Debug)]
pub struct NiriFocusTimestamp {
    pub secs: u64,
    pub nanos: u32,
}

/// What the library reads of a window that niri reports.
#[derive(Clone, Debug)]
pub struct NiriWindowInfo {
    pub id: u64,
    pub app_id: Option<String>,
    pub title: Option<String>,
    pub focus_timestamp: Option<NiriFocusTimestamp>,
}

/// Whether some candidate matches `title` (see `title_matches`).
pub open spec fn title_matches_some(title: Seq<char>, candidates: Seq<Seq<char>>) -> bool {
    exists|i: int| 0 <= i < candidates.len() && title_matches(title, #[trigger] candidates[i])
}

/// How well a window matches the candidates: 2 when its normalized app id is one of them,
/// 1 when its title matches one of them, none when it has no app id, a blank one, or
/// neither holds.
pub open spec fn focus_match_score(window: NiriWindowInfo, candidates: Seq<Seq<char>>) -> Option<u8> {
    match window.app_id {
        None => None,
        Some(app_id) => {
            let normalized = normalized_candidate(app_id@);
            if normalized.len() == 0 {
                None
            } else if candidates.contains(normalized) {
                Some(2u8)
            } else {
                match window.title {
                    None => None,
                    Some(title) => if title_matches_some(title@, candidates) {
                        Some(1u8)
                    } else {
                        None
                    },
                }
            }
        },
    }
}

/// Scores how well a window matches the focus candidates (see `focus_match_score`).
pub fn window_focus_match_score(window: &NiriWindowInfo, candidates: &[String]) -> (r: Option<u8>)
    ensures
        r == focus_match_score(*window, views(candidates@)),
{
    let app_id = match &window.app_id {
        Some(app_id) => app_id,
        None => return None,
    };
    let normalized_app_id = normalize_focus_candidate(app_id.as_str());
    if normalized_app_id.as_str().is_empty() {
        return None;
    }
    let ghost cands = views(candidates@);
    let mut i: usize = 0;
    while i < candidates.len()
        invariant
            0 <= i <= candidates.len(),
            cands == views(candidates@),
            window.app_id == Some(*app_id),
            normalized_app_id@ == normalized_candidate(app_id@),
            normalized_app_id@.len() > 0,
            forall|k: int| 0 <= k < i ==> cands[k] != normalized_app_id@,
        decreases candidates.len() - i,
    {
        assert(cands[i as int] == candidates@[i as int]@);
        if candidates[i] == normalized_app_id {
            assert(cands.contains(normalized_app_id@));
            return Some(2);
        }
        i += 1;
    }
    let title = match &window.title {
        Some(title) => title,
        None => return None,
    };
    let mut j: usize = 0;
    while j < candidates.len()
        invariant
            0 <= j <= candidates.len(),
            cands == views(candidates@),
            window.app_id == Some(*app_id),
            window.title == Some(*title),
            normalized_app_id@ == normalized_candidate(app_id@),
            normalized_app_id@.len() > 0,
            !cands.contains(normalized_app_id@),
            forall|k: int| 0 <= k < j ==> !title_matches(title@, #[trigger] cands[k]),
        decreases candidates.len() - j,
    {
        assert(cands[j as int] == candidates@[j as int]@);
        if title_matches_focus_candidate(title.as_str(), candidates[j].as_str()) {
            assert(title_matches(title@, cands[j as int]));
            assert(title_matches_some(title@, cands));
            return Some(1);
        }
        j += 1;
    }
    None
}

/// The key by which scored windows are ranked: score, then last focus time, then id.
pub open spec fn focus_rank(window: NiriWindowInfo, score: u8) -> (u8, u64, u32, u64) {
    match window.focus_timestamp {
        Some(t) => (score, t.secs, t.nanos, window.id),
        None => (score, 0u64, 0u32, window.id),
    }
}

/// Whether rank `a` is not above rank `b`, comparing the fields in order.
pub open spec fn rank_le(a: (u8, u64, u32, u64), b: (u8, u64, u32, u64)) -> bool {
    ||| a.0 < b.0
    ||| a.0 == b.0 && a.1 < b.1
    ||| a.0 == b.0 && a.1 == b.1 && a.2 < b.2
    ||| a.0 == b.0 && a.1 == b.1 && a.2 == b.2 && a.3 <= b.3
}

/// Whether window `i` of `windows` has a score and ranks highest among those that have one.
pub open spec fn is_best_match(windows: Seq<NiriWindowInfo>, candidates: Seq<Seq<char>>, i: int) -> bool {
    &&& 0 <= i < windows.len()
    &&& focus_match_score(windows[i], candidates) is Some
    &&& forall|j: int|
        0 <= j < windows.len() && (#[trigger] focus_match_score(windows[j], candidates)) is Some
            ==> rank_le(
            focus_rank(windows[j], focus_match_score(windows[j], candidates)->0),
            focus_rank(windows[i], focus_match_score(windows[i], candidates)->0),
        )
}

fn exec_rank_le(a: (u8, u64, u32, u64), b: (u8, u64, u32, u64)) -> (r: bool)
    ensures
        r == rank_le(a, b),
{
    a.0 < b.0 || (a.0 == b.0 && (a.1 < b.1 || (a.1 == b.1 && (a.2 < b.2 || (a.2 == b.2
        && a.3 <= b.3)))))
}

fn window_rank(window: &NiriWindowInfo, score: u8) -> (r: (u8, u64, u32, u64))
    ensures
        r == focus_rank(*window, score),
{
    match &window.focus_timestamp {
        Some(t) => (score, t.secs, t.nanos, window.id),
        None => (score, 0, 0, window.id),
    }
}

/// The id of the window to focus: among the windows with a score, the one of highest rank
/// (see `focus_rank`); none when no window scores.
pub fn select_focus_target(windows: &Vec<NiriWindowInfo>, candidates: &[String]) -> (r: Option<u64>)
    ensures
        r is None <==> forall|i: int|
            0 <= i < windows@.len() ==> (#[trigger] focus_match_score(
                windows@[i],
                views(candidates@),
            )) is None,
        r matches Some(id) ==> exists|i: int|
            is_best_match(windows@, views(candidates@), i) && windows@[i].id == id,
{
    let ghost cands = views(candidates@);
    let mut best: Option<(usize, (u8, u64, u32, u64))> = None;
    let mut i: usize = 0;
    while i < windows.len()
        invariant
            0 <= i <= windows.len(),
            cands == views(candidates@),
            best is None ==> forall|k: int|
                0 <= k < i ==> (#[trigger] focus_match_score(windows@[k], cands)) is None,
            best matches Some((b, rank)) ==> {
                &&& b < i
                &&& focus_match_score(windows@[b as int], cands) is Some
                &&& rank == focus_rank(
                    windows@[b as int],
                    focus_match_score(windows@[b as int], cands)->0,
                )
                &&& forall|k: int|
                    0 <= k < i && (#[trigger] focus_match_score(windows@[k], cands)) is Some
                        ==> rank_le(
                        focus_rank(windows@[k], focus_match_score(windows@[k], cands)->0),
                        rank,
                    )
            },
        decreases windows.len() - i,
    {
        match window_focus_match_score(&windows[i], candidates) {
            Some(score) => {
                let rank = window_rank(&windows[i], score);
                let replace = match &best {
                    None => true,
                    Some((_, best_rank)) => exec_rank_le(*best_rank, rank),
                };
                if replace {
                    best = Some((i, rank));
                }
            },
            None => {},
        }
        i += 1;
    }
    match best {
        None => None,
        Some((b, _)) => {
            assert(is_best_match(windows@, cands, b as int));
            Some(windows[b].id)
        },
    }
}

/// The number of times niri is asked to focus a matching window before giving up.
pub const FOCUS_ATTEMPTS: u32 = 12;

/// What to do after an attempt to focus a window.
#[derive(Clone, Copy, Debug, PartialEq, Eq)]
pub enum FocusStep {
    /// A window was focused: stop.
    Finish,
    /// Nothing was focused: wait, then try again.
    SleepThenRetry,
    /// Nothing was focused and no attempt is left: wait, then stop.
    SleepThenFinish,
}

/// The step after the given number of attempts, the last of which did or did not focus a
/// window: stop once one is focused, else wait and try again until `FOCUS_ATTEMPTS` were made.
pub fn next_focus_step(attempts_made: u32, focused: bool) -> (r: FocusStep)
    ensures
        focused ==> r == FocusStep::Finish,
        !focused && attempts_made < FOCUS_ATTEMPTS ==> r == FocusStep::SleepThenRetry,
        !focused && attempts_made >= FOCUS_ATTEMPTS ==> r == FocusStep::SleepThenFinish,
{
    if focused {
        FocusStep::Finish
    } else if attempts_made < FOCUS_ATTEMPTS {
        FocusStep::SleepThenRetry
    } else {
        FocusStep::SleepThenFinish
    }
}

/// The deduplicated candidates hold no repeat and no empty string; each is the normalized
/// form of some input, and every input whose normalized form is not empty has it among them.
pub proof fn lemma_deduped_candidates(s: Seq<Seq<char>>)
    ensures
        deduped_candidates(s).no_duplicates(),
        forall|i: int|
            0 <= i < deduped_candidates(s).len() ==> (#[trigger] deduped_candidates(s)[i]).len()
                > 0,
        forall|i: int|
            #![trigger deduped_candidates(s)[i]]
            0 <= i < deduped_candidates(s).len() ==> exists|j: int|
                0 <= j < s.len() && normalized_candidate(#[trigger] s[j])
                    == deduped_candidates(s)[i],
        forall|j: int|
            0 <= j < s.len() && normalized_candidate(#[trigger] s[j]).len() > 0
                ==> deduped_candidates(s).contains(normalized_candidate(s[j])),
    decreases s.len(),
{
    if s.len() > 0 {
        let prefix = s.drop_last();
        lemma_deduped_candidates(prefix);
        let prev = deduped_candidates(prefix);
        let next = normalized_candidate(s.last());
        let d = deduped_candidates(s);
        assert forall|i: int| #![trigger d[i]] 0 <= i < d.len() implies exists|j: int|
            0 <= j < s.len() && normalized_candidate(#[trigger] s[j]) == d[i] by {
            if i < prev.len() {
                let j = choose|j: int|
                    0 <= j < prefix.len() && normalized_candidate(#[trigger] prefix[j]) == prev[i];
                assert(s[j] == prefix[j]);
            } else {
                assert(s[s.len() - 1] == s.last());
            }
        }
        assert forall|j: int|
            0 <= j < s.len() && normalized_candidate(#[trigger] s[j]).len() > 0 implies d.contains(
            normalized_candidate(s[j]),
        ) by {
            if j < s.len() - 1 {
                assert(s[j] == prefix[j]);
                let k = choose|k: int| 0 <= k < prev.len() && prev[k] == normalized_candidate(s[j]);
                assert(d[k] == prev[k]);
            } else {
                if !(next.len() == 0 || prev.contains(next)) {
                    assert(d[d.len() - 1] == next);
                }
            }
        }
    }
}

/// Every title with tokens matches itself, and one without tokens matches nothing.
pub proof fn lemma_title_matches_itself(s: Seq<char>)
    ensures
        title_matches(s, s) <==> focus_tokens(s).len() > 0,
{
    let t = focus_tokens(s);
    assert forall|i: int| 0 <= i < t.len() implies t.contains(#[trigger] t[i]) by {
    }
}

/// If `a` matches `b` and `b` matches `c`, then `a` matches `c`.
pub proof fn lemma_title_matches_transitive(a: Seq<char>, b: Seq<char>, c: Seq<char>)
    requires
        title_matches(a, b),
        title_matches(b, c),
    ensures
        title_matches(a, c),
{
    let ta = focus_tokens(a);
    let tb = focus_tokens(b);
    let tc = focus_tokens(c);
    assert forall|i: int| 0 <= i < tc.len() implies ta.contains(#[trigger] tc[i]) by {
        assert(tb.contains(tc[i]));
        let j = choose|j: int| 0 <= j < tb.len() && tb[j] == tc[i];
        assert(ta.contains(tb[j]));
    }
}

/// A title that matches a candidate still matches it with more words before or after it,
/// in any ASCII case; and the candidate matches itself.
pub proof fn lemma_title_matches_extended(title: Seq<char>, candidate: Seq<char>, extra: Seq<char>)
    requires
        title_matches(title, candidate),
    ensures
        title_matches(title + seq![' '] + extra, candidate),
        title_matches(extra + seq![' '] + title, candidate),
        title_matches(ascii_uppercase(title), ascii_lowercase(candidate)),
        title_matches(candidate, candidate),
{
    let tt = focus_tokens(title);
    let ct = focus_tokens(candidate);
    let te = focus_tokens(extra);
    lemma_focus_tokens_concat(title, ' ', extra);
    lemma_focus_tokens_concat(extra, ' ', title);
    lemma_focus_tokens_ignore_ascii_case(title);
    lemma_focus_tokens_ignore_ascii_case(candidate);
    lemma_title_matches_itself(candidate);
    assert forall|i: int| 0 <= i < ct.len() implies (tt + te).contains(#[trigger] ct[i]) && (te
        + tt).contains(ct[i]) by {
        assert(tt.contains(ct[i]));
        let j = choose|j: int| 0 <= j < tt.len() && tt[j] == ct[i];
        assert((tt + te)[j] == tt[j]);
        assert((te + tt)[te.len() + j] == tt[j]);
    }
}

/// Among matching windows of equal score, the best match is the one focused last: any other
/// window with its score was focused no later (seconds, then nanoseconds; never focused
/// counting as time zero), and when both times are equal its id is no greater.
pub proof fn lemma_best_match_is_latest_focused(
    windows: Seq<NiriWindowInfo>,
    candidates: Seq<Seq<char>>,
    best: int,
    j: int,
)
    requires
        is_best_match(windows, candidates, best),
        0 <= j < windows.len(),
        focus_match_score(windows[j], candidates) is Some,
        focus_match_score(windows[j], candidates) == focus_match_score(windows[best], candidates),
    ensures
        ({
            let (js, jn) = match windows[j].focus_timestamp {
                Some(t) => (t.secs, t.nanos),
                None => (0u64, 0u32),
            };
            let (bs, bn) = match windows[best].focus_timestamp {
                Some(t) => (t.secs, t.nanos),
                None => (0u64, 0u32),
            };
            &&& js < bs || (js == bs && jn <= bn)
            &&& (js == bs && jn == bn) ==> windows[j].id <= windows[best].id
        }),
{
    assert(focus_match_score(windows[j], candidates) is Some);
}

/// A window scores 2 exactly when it has an app id whose normalized form, as
/// `normalize_focus_candidate` gives it (trimmed, reduced to its file stem, lower-cased), is
/// not empty and is one of the candidates.
pub proof fn lemma_score_two_iff_normalized_app_id(window: NiriWindowInfo, candidates: Seq<Seq<char>>)
    ensures
        focus_match_score(window, candidates) == Some(2u8) <==> ({
            &&& window.app_id is Some
            &&& normalized_candidate(window.app_id->0@).len() > 0
            &&& candidates.contains(normalized_candidate(window.app_id->0@))
        }),
{
}

/// A window scores 1 exactly when its app id normalizes to a non-empty form that is no
/// candidate, and its title matches one of the candidates token by token.
pub proof fn lemma_score_one_iff_title_matches(window: NiriWindowInfo, candidates: Seq<Seq<char>>)
    ensures
        focus_match_score(window, candidates) == Some(1u8) <==> ({
            &&& window.app_id is Some
            &&& normalized_candidate(window.app_id->0@).len() > 0
            &&& !candidates.contains(normalized_candidate(window.app_id->0@))
            &&& window.title is Some
            &&& exists|i: int|
                0 <= i < candidates.len() && title_matches(
                    window.title->0@,
                    #[trigger] candidates[i],
                )
        }),
{
}

/// Two windows that both rank highest have the same id: the target does not depend on
/// which of them is taken.
pub proof fn lemma_best_match_id_unique(
    windows: Seq<NiriWindowInfo>,
    candidates: Seq<Seq<char>>,
    i: int,
    j: int,
)
    requires
        is_best_match(windows, candidates, i),
        is_best_match(windows, candidates, j),
    ensures
        windows[i].id == windows[j].id,
{
    assert(focus_match_score(windows[i], candidates) is Some);
    assert(focus_match_score(windows[j], candidates) is Some);
}

/// A window whose app id names a candidate outranks every window that matches only by
/// title: when one exists, the best match is such a window.
pub proof fn lemma_app_id_match_preferred(
    windows: Seq<NiriWindowInfo>,
    candidates: Seq<Seq<char>>,
    best: int,
    j: int,
)
    requires
        is_best_match(windows, candidates, best),
        0 <= j < windows.len(),
        focus_match_score(windows[j], candidates) == Some(2u8),
    ensures
        focus_match_score(windows[best], candidates) == Some(2u8),
{
    assert(focus_match_score(windows[j], candidates) is Some);
}

} // verus!
