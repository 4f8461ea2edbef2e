use vstd::prelude::*;

verus! {

/// Whether a character has the Unicode `White_Space` property, which `char::is_whitespace`
/// reports: the controls U+0009 to U+000D, space, U+0085, no-break space, U+1680, the spaces
/// U+2000 to U+200A, the line and paragraph separators, U+202F, U+205F and U+3000.
pub open spec fn unicode_white_space(c: char) -> bool {
    let n = c as u32;
    ||| 0x09 <= n <= 0x0d
    ||| n == 0x20 || n == 0x85 || n == 0xa0 || n == 0x1680
    ||| 0x2000 <= n <= 0x200a
    ||| n == 0x2028 || n == 0x2029 || n == 0x202f || n == 0x205f || n == 0x3000
}

/// Calls `char::is_whitespace`, which is true exactly for the characters of the Unicode
/// `White_Space` property (see `unicode_white_space`).
#[verifier::external_body]
pub(crate) fn is_white_space(c: char) -> (r: bool)
    ensures
        r == unicode_white_space(c),
{
    c.is_whitespace()
}

/// `String::push` appends one character to the end of the string.
pub assume_specification[ String::push ](string: &mut String, ch: char)
    ensures
        final(string)@ == old(string)@.push(ch),
;

/// The characters of `s` with leading white space removed.
pub open spec fn trim_start(s: Seq<char>) -> Seq<char>
    decreases s.len(),
{
    if s.len() > 0 && unicode_white_space(s[0]) {
        trim_start(s.drop_first())
    } else {
        s
    }
}

/// The characters of `s` with trailing white space removed.
pub open spec fn trim_end(s: Seq<char>) -> Seq<char>
    decreases s.len(),
{
    if s.len() > 0 && unicode_white_space(s.last()) {
        trim_end(s.drop_last())
    } else {
        s
    }
}

/// The characters of `s` with white space removed at both ends, as `str::trim` does.
pub open spec fn trim(s: Seq<char>) -> Seq<char> {
    trim_end(trim_start(s))
}

/// The characters of `s`, one by one.
pub fn chars_of(s: &str) -> (v: Vec<char>)
    ensures
        v@ == s@,
{
    let mut v: Vec<char> = Vec::new();
    for c in it: s.chars()
        invariant
            v@ == it.seq().take(it.index() as int),
            it.seq() == s@,
    {
        v.push(c);
    }
    v
}

/// A new string holding `v[lo..hi]`.
pub fn string_from_range(v: &Vec<char>, lo: usize, hi: usize) -> (s: String)
    requires
        lo <= hi <= v.len(),
    ensures
        s@ == v@.subrange(lo as int, hi as int),
{
    let mut s = String::new();
    let mut i = lo;
    while i < hi
        invariant
            lo <= i <= hi <= v.len(),
            s@ == v@.subrange(lo as int, i as int),
        decreases hi - i,
    {
        s.push(v[i]);
        assert(v@.subrange(lo as int, i + 1) =~= v@.subrange(lo as int, i as int).push(v@[i as int]));
        i += 1;
    }
    s
}

/// The bounds `(a, b)` within `lo..hi` such that `v[a..b]` is `v[lo..hi]` trimmed.
pub fn trim_bounds(v: &Vec<char>, lo: usize, hi: usize) -> (r: (usize, usize))
    requires
        lo <= hi <= v.len(),
    ensures
        lo <= r.0 <= r.1 <= hi,
        v@.subrange(r.0 as int, r.1 as int) == trim(v@.subrange(lo as int, hi as int)),
{
    let mut a = lo;
    while a < hi && is_white_space(v[a])
        invariant
            lo <= a <= hi <= v.len(),
            trim_start(v@.subrange(lo as int, hi as int)) == trim_start(v@.subrange(a as int, hi as int)),
        decreases hi - a,
    {
        assert(v@.subrange(a as int, hi as int).drop_first() =~= v@.subrange(a + 1, hi as int));
        a += 1;
    }
    assert(trim_start(v@.subrange(a as int, hi as int)) == v@.subrange(a as int, hi as int));
    let mut b = hi;
    while b > a && is_white_space(v[b - 1])
        invariant
            lo <= a <= b <= hi <= v.len(),
            trim_end(v@.subrange(a as int, hi as int)) == trim_end(v@.subrange(a as int, b as int)),
        decreases b - a,
    {
        assert(v@.subrange(a as int, b as int).drop_last() =~= v@.subrange(a as int, b - 1));
        b -= 1;
    }
    (a, b)
}

/// `s` with white space removed at both ends.
pub fn trim_str(s: &str) -> (r: &str)
    ensures
        r@ == trim(s@),
{
    let v = chars_of(s);
    let (a, b) = trim_bounds(&v, 0, v.len());
    assert(v@.subrange(0, v@.len() as int) =~= v@);
    s.substring_char(a, b)
}

/// Whether `c` is an ASCII upper-case letter.
pub open spec fn is_ascii_upper(c: char) -> bool {
    'A' <= c && c <= 'Z'
}

/// Whether `c` is an ASCII letter or digit, as `char::is_ascii_alphanumeric` reports it.
pub open spec fn is_ascii_alnum(c: char) -> bool {
    ||| ('0' <= c && c <= '9')
    ||| ('a' <= c && c <= 'z')
    ||| ('A' <= c && c <= 'Z')
}

/// `c` with an ASCII upper-case letter mapped to its lower-case form.
pub open spec fn ascii_lower(c: char) -> char {
    if is_ascii_upper(c) {
        ((c as u32) + 32) as char
    } else {
        c
    }
}

/// `s` with every ASCII upper-case letter mapped to lower case, as `str::to_ascii_lowercase` does.
pub open spec fn ascii_lowercase(s: Seq<char>) -> Seq<char> {
    s.map_values(|c: char| ascii_lower(c))
}

/// Whether `c` is an ASCII letter or digit.
pub fn is_ascii_alnum_char(c: char) -> (r: bool)
    ensures
        r == is_ascii_alnum(c),
{
    ('0' <= c && c <= '9') || ('a' <= c && c <= 'z') || ('A' <= c && c <= 'Z')
}

/// `c` in ASCII lower case.
pub fn lower_char(c: char) -> (r: char)
    ensures
        r == ascii_lower(c),
{
    if 'A' <= c && c <= 'Z' {
        let b = c as u8;
        assert(b as u32 == c as u32);
        (b + 32) as char
    } else {
        c
    }
}

/// A new string holding `v[lo..hi]` in ASCII lower case.
pub fn lowercase_from_range(v: &Vec<char>, lo: usize, hi: usize) -> (s: String)
    requires
        lo <= hi <= v.len(),
    ensures
        s@ == ascii_lowercase(v@.subrange(lo as int, hi as int)),
{
    let mut s = String::new();
    let mut i = lo;
    while i < hi
        invariant
            lo <= i <= hi <= v.len(),
            s@ == ascii_lowercase(v@.subrange(lo as int, i as int)),
        decreases hi - i,
    {
        s.push(lower_char(v[i]));
        assert(ascii_lowercase(v@.subrange(lo as int, i + 1)) =~= ascii_lowercase(
            v@.subrange(lo as int, i as int),
        ).push(ascii_lower(v@[i as int])));
        i += 1;
    }
    s
}

/// `c` with an ASCII lower-case letter mapped to its upper-case form.
pub open spec fn ascii_upper(c: char) -> char {
    if 'a' <= c && c <= 'z' {
        ((c as u32) - 32) as char
    } else {
        c
    }
}

/// `s` with every ASCII lower-case letter mapped to upper case, as `str::to_ascii_uppercase`
/// does.
pub open spec fn ascii_uppercase(s: Seq<char>) -> Seq<char> {
    s.map_values(|c: char| ascii_upper(c))
}

/// Whether the character map `f` changes only the case of ASCII letters: white space, `/`,
/// `.`, ASCII letters and digits stay what they are, and ASCII lower case sees no change.
pub open spec fn changes_only_ascii_case(f: spec_fn(char) -> char) -> bool {
    forall|c: char|
        {
            &&& unicode_white_space(#[trigger] f(c)) == unicode_white_space(c)
            &&& (f(c) == '/') == (c == '/')
            &&& (f(c) == '.') == (c == '.')
            &&& is_ascii_alnum(f(c)) == is_ascii_alnum(c)
            &&& ascii_lower(f(c)) == ascii_lower(c)
        }
}

/// ASCII upper and lower casing change only the case of ASCII letters.
pub proof fn lemma_ascii_case_maps()
    ensures
        changes_only_ascii_case(|c: char| ascii_upper(c)),
        changes_only_ascii_case(|c: char| ascii_lower(c)),
{
    let up = |c: char| ascii_upper(c);
    let low = |c: char| ascii_lower(c);
    assert forall|c: char|
        {
            &&& unicode_white_space(#[trigger] up(c)) == unicode_white_space(c)
            &&& (up(c) == '/') == (c == '/')
            &&& (up(c) == '.') == (c == '.')
            &&& is_ascii_alnum(up(c)) == is_ascii_alnum(c)
            &&& ascii_lower(up(c)) == ascii_lower(c)
        } by {
        if 'a' <= c && c <= 'z' {
            assert((up(c) as u32) == (c as u32) - 32);
        }
    }
    assert forall|c: char|
        {
            &&& unicode_white_space(#[trigger] low(c)) == unicode_white_space(c)
            &&& (low(c) == '/') == (c == '/')
            &&& (low(c) == '.') == (c == '.')
            &&& is_ascii_alnum(low(c)) == is_ascii_alnum(c)
            &&& ascii_lower(low(c)) == ascii_lower(c)
        } by {
        if 'A' <= c && c <= 'Z' {
            assert((low(c) as u32) == (c as u32) + 32);
        }
    }
}

/// Trimming commutes with a map that changes only ASCII case.
pub proof fn lemma_trim_case_map(s: Seq<char>, f: spec_fn(char) -> char)
    requires
        changes_only_ascii_case(f),
    ensures
        trim(s.map_values(f)) == trim(s).map_values(f),
{
    lemma_trim_start_case_map(s, f);
    lemma_trim_end_case_map(trim_start(s), f);
}

proof fn lemma_trim_start_case_map(s: Seq<char>, f: spec_fn(char) -> char)
    requires
        changes_only_ascii_case(f),
    ensures
        trim_start(s.map_values(f)) == trim_start(s).map_values(f),
    decreases s.len(),
{
    let m = s.map_values(f);
    if s.len() > 0 {
        assert(m[0] == f(s[0]));
        assert(unicode_white_space(f(s[0])) == unicode_white_space(s[0]));
        if unicode_white_space(s[0]) {
            assert(m.drop_first() =~= s.drop_first().map_values(f));
            lemma_trim_start_case_map(s.drop_first(), f);
        }
    }
}

proof fn lemma_trim_end_case_map(s: Seq<char>, f: spec_fn(char) -> char)
    requires
        changes_only_ascii_case(f),
    ensures
        trim_end(s.map_values(f)) == trim_end(s).map_values(f),
    decreases s.len(),
{
    let m = s.map_values(f);
    if s.len() > 0 {
        assert(m.last() == f(s.last()));
        assert(unicode_white_space(f(s.last())) == unicode_white_space(s.last()));
        if unicode_white_space(s.last()) {
            assert(m.drop_last() =~= s.drop_last().map_values(f));
            lemma_trim_end_case_map(s.drop_last(), f);
        }
    }
}

/// Leading white space of `a + b` lies in `a` when `b` starts with other than white space.
pub proof fn lemma_trim_start_concat(a: Seq<char>, b: Seq<char>)
    requires
        b.len() > 0,
        !unicode_white_space(b[0]),
    ensures
        trim_start(a + b) == trim_start(a) + b,
    decreases a.len(),
{
    if a.len() == 0 {
        assert(a + b =~= b);
        assert(trim_start(a) + b =~= b);
    } else {
        assert((a + b)[0] == a[0]);
        if unicode_white_space(a[0]) {
            assert((a + b).drop_first() =~= a.drop_first() + b);
            lemma_trim_start_concat(a.drop_first(), b);
        }
    }
}

/// `s` trims to itself when it neither starts nor ends with white space.
pub proof fn lemma_trim_unchanged(s: Seq<char>)
    requires
        s.len() > 0,
        !unicode_white_space(s[0]),
        !unicode_white_space(s.last()),
    ensures
        trim(s) == s,
{
}

/// The decimal digit character for `d`, which is below ten.
pub open spec fn digit_char(d: nat) -> char {
    ((d + 48) as u32) as char
}

/// The decimal notation of `n`, without leading zeros.
pub open spec fn decimal(n: nat) -> Seq<char>
    decreases n,
{
    if n < 10 {
        seq![digit_char(n)]
    } else {
        decimal(n / 10).push(digit_char(n % 10))
    }
}

/// The decimal notation of `n`, with a leading `-` when it is negative.
pub open spec fn signed_decimal(n: int) -> Seq<char> {
    if n < 0 {
        seq!['-'] + decimal((-n) as nat)
    } else {
        decimal(n as nat)
    }
}

fn push_decimal(s: &mut String, n: u64)
    ensures
        final(s)@ == old(s)@ + decimal(n as nat),
    decreases n,
{
    if n >= 10 {
        push_decimal(s, n / 10);
    }
    let d = (n % 10) as u8;
    s.push((d + 48) as char);
    assert(((d + 48) as char) == digit_char((n % 10) as nat));
    assert(old(s)@ + decimal(n as nat) =~= s@);
}

/// The decimal notation of `n`, as `i32::to_string` gives it.
pub fn signed_decimal_string(n: i32) -> (s: String)
    ensures
        s@ == signed_decimal(n as int),
{
    let mut s = String::new();
    let wide = n as i64;
    if wide < 0 {
        s.push('-');
        push_decimal(&mut s, (-wide) as u64);
    } else {
        push_decimal(&mut s, wide as u64);
    }
    assert(s@ =~= signed_decimal(n as int));
    s
}

/// The index of the first `c` in `s`, if there is one.
pub open spec fn find_char(s: Seq<char>, c: char) -> Option<int>
    decreases s.len(),
{
    if s.len() == 0 {
        None
    } else if s[0] == c {
        Some(0)
    } else {
        match find_char(s.drop_first(), c) {
            Some(i) => Some(i + 1),
            None => None,
        }
    }
}

/// `find_char` gives the first occurrence, and none only when there is none.
pub proof fn lemma_find_char(s: Seq<char>, c: char)
    ensures
        match find_char(s, c) {
            Some(i) => 0 <= i < s.len() && s[i] == c && forall|j: int| 0 <= j < i ==> s[j] != c,
            None => forall|j: int| 0 <= j < s.len() ==> s[j] != c,
        },
    decreases s.len(),
{
    if s.len() > 0 && s[0] != c {
        lemma_find_char(s.drop_first(), c);
        match find_char(s.drop_first(), c) {
            Some(i) => {
                assert forall|j: int| 0 <= j < i + 1 implies s[j] != c by {
                    if j > 0 {
                        assert(s[j] == s.drop_first()[j - 1]);
                    }
                }
            },
            None => {
                assert forall|j: int| 0 <= j < s.len() implies s[j] != c by {
                    if j > 0 {
                        assert(s[j] == s.drop_first()[j - 1]);
                    }
                }
            },
        }
    }
}

/// The first `c` in `v[lo..hi]`, as an index into `v`.
pub fn find_char_in(v: &Vec<char>, lo: usize, hi: usize, c: char) -> (r: Option<usize>)
    requires
        lo <= hi <= v.len(),
    ensures
        match r {
            Some(i) => lo <= i < hi && v@[i as int] == c && find_char(
                v@.subrange(lo as int, hi as int),
                c,
            ) == Some(i - lo),
            None => find_char(v@.subrange(lo as int, hi as int), c) is None,
        },
{
    let ghost s = v@.subrange(lo as int, hi as int);
    proof {
        lemma_find_char(s, c);
    }
    let mut k = lo;
    while k < hi
        invariant
            lo <= k <= hi <= v.len(),
            s == v@.subrange(lo as int, hi as int),
            forall|j: int| lo <= j < k ==> v@[j] != c,
        decreases hi - k,
    {
        if v[k] == c {
            proof {
                lemma_find_char(s, c);
                match find_char(s, c) {
                    Some(i) => {
                        assert(s[k - lo] == c);
                        if i < k - lo {
                            assert(s[i] == v@[lo + i]);
                        }
                        if i > k - lo {
                            assert(s[k - lo] == v@[k as int]);
                        }
                    },
                    None => {
                        assert(s[k - lo] == v@[k as int]);
                    },
                }
            }
            return Some(k);
        }
        k += 1;
    }
    proof {
        match find_char(s, c) {
            Some(i) => {
                assert(s[i] == v@[lo + i]);
            },
            None => {},
        }
    }
    None
}

/// Whether `v[lo..hi]` holds exactly the characters of `w`.
pub fn range_equals(v: &Vec<char>, lo: usize, hi: usize, w: &Vec<char>) -> (r: bool)
    requires
        lo <= hi <= v.len(),
    ensures
        r == (v@.subrange(lo as int, hi as int) == w@),
{
    if hi - lo != w.len() {
        return false;
    }
    let mut k: usize = 0;
    while k < w.len()
        invariant
            lo <= hi <= v.len(),
            hi - lo == w.len(),
            0 <= k <= w.len(),
            forall|j: int| 0 <= j < k ==> v@[lo + j] == w@[j],
        decreases w.len() - k,
    {
        if v[lo + k] != w[k] {
            assert(v@.subrange(lo as int, hi as int)[k as int] != w@[k as int]);
            return false;
        }
        k += 1;
    }
    assert(v@.subrange(lo as int, hi as int) =~= w@);
    true
}

/// Trimming the start leaves a suffix that starts with other than white space.
pub proof fn lemma_trim_start_suffix(s: Seq<char>)
    ensures
        exists|k: int| 0 <= k <= s.len() && trim_start(s) == s.skip(k),
        trim_start(s).len() > 0 ==> !unicode_white_space(trim_start(s)[0]),
    decreases s.len(),
{
    if s.len() > 0 && unicode_white_space(s[0]) {
        lemma_trim_start_suffix(s.drop_first());
        let k = choose|k: int|
            0 <= k <= s.drop_first().len() && trim_start(s.drop_first()) == s.drop_first().skip(k);
        assert(s.drop_first().skip(k) =~= s.skip(k + 1));
    } else {
        assert(s.skip(0) =~= s);
    }
}

proof fn lemma_trim_end_prefix(s: Seq<char>)
    ensures
        exists|k: int| 0 <= k <= s.len() && trim_end(s) == s.take(k),
        trim_end(s).len() > 0 ==> !unicode_white_space(trim_end(s).last()),
    decreases s.len(),
{
    if s.len() > 0 && unicode_white_space(s.last()) {
        lemma_trim_end_prefix(s.drop_last());
        let k = choose|k: int|
            0 <= k <= s.drop_last().len() && trim_end(s.drop_last()) == s.drop_last().take(k);
        assert(s.drop_last().take(k) =~= s.take(k));
    } else {
        assert(s.take(s.len() as int) =~= s);
    }
}

/// What `trim` gives starts and ends with a character that is not white space.
pub proof fn lemma_trim_ends(s: Seq<char>)
    ensures
        trim(s).len() > 0 ==> !unicode_white_space(trim(s)[0]) && !unicode_white_space(
            trim(s).last(),
        ),
{
    lemma_trim_start_suffix(s);
    lemma_trim_end_prefix(trim_start(s));
    let k = choose|k: int|
        0 <= k <= trim_start(s).len() && trim_end(trim_start(s)) == trim_start(s).take(k);
    if trim(s).len() > 0 {
        assert(trim(s)[0] == trim_start(s)[0]);
    }
}

/// Trimming twice gives what trimming once gives.
pub proof fn lemma_trim_idempotent(s: Seq<char>)
    ensures
        trim(trim(s)) == trim(s),
{
    lemma_trim_ends(s);
    let t = trim(s);
    if t.len() > 0 {
        assert(trim_start(t) == t);
        assert(trim_end(t) == t);
    } else {
        assert(trim_start(t) == t);
        assert(trim_end(t) == t);
    }
}

} // verus!
