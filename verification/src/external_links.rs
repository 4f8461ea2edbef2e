use vstd::prelude::*;

pub use crate::linux_focus::dedupe_focus_candidates;
pub use crate::linux_focus::normalize_focus_candidate;
pub use crate::linux_focus::normalize_focus_tokens;
pub use crate::linux_focus::title_matches_focus_candidate;
pub use crate::linux_focus::window_focus_match_score;
pub use crate::linux_focus::NiriFocusTimestamp;
pub use crate::linux_focus::NiriWindowInfo;

use crate::linux_focus::deduped_candidates;
use crate::linux_focus::lemma_deduped_candidates;
use crate::linux_focus::normalized_candidate;
use crate::linux_focus::views;
use crate::paths::file_name;
use crate::paths::file_name_bounds;
use crate::paths::join_path;
use crate::paths::join_path_list;
use crate::paths::joined_path_list;
use crate::paths::path_join;
use crate::paths::path_stem;
use crate::paths::str_option_view;
use crate::paths::path_stem_bounds;
use crate::text::ascii_lowercase;
use crate::text::chars_of;
use crate::text::lower_char;
use crate::text::signed_decimal;
use crate::text::signed_decimal_string;
use crate::text::trim_str;
use crate::text::find_char;
use crate::text::find_char_in;
use crate::text::lemma_find_char;
use crate::text::lemma_trim_ends;
use crate::text::lemma_trim_idempotent;
use crate::text::range_equals;
use crate::text::string_from_range;
use crate::text::trim;
use crate::text::trim_bounds;
use crate::text::unicode_white_space;

verus! {

/// Whether `s` holds a NUL, line feed or carriage return.
pub open spec fn has_control_chars(s: Seq<char>) -> bool {
    s.contains('\0') || s.contains('\n') || s.contains('\r')
}

/// The URL to open: `url` trimmed, refused when blank or when it holds a control character.
pub open spec fn sanitized_url(url: Seq<char>) -> Result<Seq<char>, Seq<char>> {
    let t = trim(url);
    if t.len() == 0 {
        Err("Missing URL."@)
    } else if has_control_chars(t) {
        Err("URL contains unsupported control characters."@)
    } else {
        Ok(t)
    }
}

/// The character sequences a string result holds.
pub open spec fn result_view(r: Result<String, String>) -> Result<Seq<char>, Seq<char>> {
    match r {
        Ok(s) => Ok(s@),
        Err(e) => Err(e@),
    }
}

/// Checks a URL before it is handed to the platform's opener (see `sanitized_url`).
pub fn sanitize_external_url(url: String) -> (r: Result<String, String>)
    ensures
        result_view(r) == sanitized_url(url@),
{
    let v = chars_of(url.as_str());
    assert(v@.subrange(0, v@.len() as int) =~= v@);
    let (a, b) = trim_bounds(&v, 0, v.len());
    let ghost t = v@.subrange(a as int, b as int);
    if a == b {
        return Err(String::from_str("Missing URL."));
    }
    let mut k = a;
    while k < b
        invariant
            a <= k <= b <= v.len(),
            t == v@.subrange(a as int, b as int),
            t == trim(url@),
            t.len() > 0,
            forall|j: int| a <= j < k ==> v@[j] != '\0' && v@[j] != '\n' && v@[j] != '\r',
        decreases b - k,
    {
        let c = v[k];
        if c == '\0' || c == '\n' || c == '\r' {
            assert(t[k - a] == c);
            assert(t.contains(c));
            return Err(String::from_str("URL contains unsupported control characters."));
        }
        k += 1;
    }
    assert(!has_control_chars(t)) by {
        assert forall|j: int| 0 <= j < t.len() implies t[j] != '\0' && t[j] != '\n' && t[j]
            != '\r' by {
            assert(t[j] == v@[a + j]);
        }
    }
    Ok(string_from_range(&v, a, b))
}

/// Sanitizing an already sanitized URL gives it back unchanged.
pub proof fn lemma_sanitize_idempotent(url: Seq<char>)
    requires
        sanitized_url(url) is Ok,
    ensures
        sanitized_url(sanitized_url(url)->Ok_0) == sanitized_url(url),
{
    lemma_trim_idempotent(url);
}

/// A sanitized URL is not blank, has no white space at either end and no control character.
pub proof fn lemma_sanitized_url_shape(url: Seq<char>)
    requires
        sanitized_url(url) is Ok,
    ensures
        ({
            let s = sanitized_url(url)->Ok_0;
            &&& s.len() > 0
            &&& !unicode_white_space(s[0])
            &&& !unicode_white_space(s.last())
            &&& !has_control_chars(s)
        }),
{
    lemma_trim_ends(url);
}

/// The scheme of a URL: what comes before its first `:`, trimmed; none when there is no
/// `:` or the scheme is blank.
pub open spec fn url_scheme(url: Seq<char>) -> Option<Seq<char>> {
    match find_char(url, ':') {
        None => None,
        Some(i) => {
            let scheme = trim(url.take(i));
            if scheme.len() == 0 {
                None
            } else {
                Some(scheme)
            }
        },
    }
}

/// Extracts the scheme of a URL (see `url_scheme`).
pub fn extract_url_scheme(url: &str) -> (r: Option<&str>)
    ensures
        r is None <==> url_scheme(url@) is None,
        r matches Some(s) ==> url_scheme(url@) == Some(s@),
        r matches Some(s) ==> s@.len() > 0 && !s@.contains(':'),
{
    let v = chars_of(url);
    assert(v@.subrange(0, v@.len() as int) =~= v@);
    match find_char_in(&v, 0, v.len(), ':') {
        None => None,
        Some(i) => {
            let (a, b) = trim_bounds(&v, 0, i);
            assert(v@.subrange(0, i as int) =~= v@.take(i as int));
            if a == b {
                None
            } else {
                let scheme = url.substring_char(a, b);
                proof {
                    lemma_find_char(v@, ':');
                    assert forall|j: int| 0 <= j < scheme@.len() implies scheme@[j] != ':' by {
                        assert(scheme@[j] == v@[a + j]);
                    }
                }
                Some(scheme)
            }
        },
    }
}

/// Whether `s` ends with `suffix`.
pub open spec fn ends_with(s: Seq<char>, suffix: Seq<char>) -> bool {
    s.len() >= suffix.len() && s.subrange(s.len() - suffix.len(), s.len() as int) == suffix
}

/// The focus candidates a desktop entry id names: the stem of its file name and, when that
/// stem ends in `-url-handler`, the stem without it; none for a blank id.
pub open spec fn desktop_id_candidates(desktop_entry: Seq<char>) -> Seq<Seq<char>> {
    let t = trim(desktop_entry);
    if t.len() == 0 {
        Seq::empty()
    } else {
        let stem = path_stem(t);
        let suffix = "-url-handler"@;
        if ends_with(stem, suffix) {
            seq![stem, stem.take(stem.len() - suffix.len())]
        } else {
            seq![stem]
        }
    }
}

/// What a desktop id names: nothing for a blank id, else first the stem of its file name;
/// a second candidate comes exactly when that stem ends in `-url-handler`, and it is the stem
/// with only that suffix taken off.
pub proof fn lemma_desktop_id_candidates_shape(desktop_entry: Seq<char>)
    ensures
        ({
            let r = desktop_id_candidates(desktop_entry);
            let suffix = "-url-handler"@;
            &&& r.len() <= 2
            &&& r.len() == 0 <==> trim(desktop_entry).len() == 0
            &&& r.len() > 0 ==> r[0] == path_stem(trim(desktop_entry))
            &&& r.len() == 2 <==> (r.len() > 0 && ends_with(r[0], suffix))
            &&& r.len() == 2 ==> r[1] + suffix == r[0]
        }),
{
    let t = trim(desktop_entry);
    let suffix = "-url-handler"@;
    if t.len() > 0 {
        let stem = path_stem(t);
        if ends_with(stem, suffix) {
            let head = stem.take(stem.len() - suffix.len());
            assert(head + suffix =~= stem);
        }
    }
}

/// Whether `v[lo..hi]` ends with the characters of `suffix`.
fn range_ends_with(v: &Vec<char>, lo: usize, hi: usize, suffix: &Vec<char>) -> (r: bool)
    requires
        lo <= hi <= v.len(),
    ensures
        r == ends_with(v@.subrange(lo as int, hi as int), suffix@),
{
    if hi - lo < suffix.len() {
        return false;
    }
    let r = range_equals(v, hi - suffix.len(), hi, suffix);
    assert(v@.subrange(lo as int, hi as int).subrange(
        (hi - lo) - suffix@.len(),
        (hi - lo) as int,
    ) =~= v@.subrange(hi - suffix@.len(), hi as int));
    r
}

/// The focus candidates named by a desktop entry id (see `desktop_id_candidates`).
pub fn derive_focus_candidates_from_desktop_id(desktop_entry: &str) -> (r: Vec<String>)
    ensures
        views(r@) == desktop_id_candidates(desktop_entry@),
{
    let v = chars_of(desktop_entry);
    assert(v@.subrange(0, v@.len() as int) =~= v@);
    let (a, b) = trim_bounds(&v, 0, v.len());
    if a == b {
        let r: Vec<String> = Vec::new();
        assert(views(r@) =~= Seq::<Seq<char>>::empty());
        return r;
    }
    let (c, d) = path_stem_bounds(&v, a, b);
    let suffix = chars_of("-url-handler");
    let mut candidates: Vec<String> = Vec::new();
    candidates.push(string_from_range(&v, c, d));
    if range_ends_with(&v, c, d, &suffix) {
        candidates.push(string_from_range(&v, c, d - suffix.len()));
        let ghost stem = v@.subrange(c as int, d as int);
        assert(stem.take(stem.len() - suffix@.len()) =~= v@.subrange(
            c as int,
            d - suffix@.len(),
        ));
        assert(views(candidates@) =~= seq![stem, stem.take(stem.len() - suffix@.len())]);
    } else {
        assert(views(candidates@) =~= seq![v@.subrange(c as int, d as int)]);
    }
    candidates
}

/// `line` without one trailing carriage return.
pub open spec fn strip_cr(line: Seq<char>) -> Seq<char> {
    if line.len() > 0 && line.last() == '\r' {
        line.drop_last()
    } else {
        line
    }
}

/// The lines of `s`, as `str::lines` gives them: split at each line feed, a carriage return
/// before it dropped, with no line after a final line feed.
pub open spec fn text_lines(s: Seq<char>) -> Seq<Seq<char>>
    decreases s.len(),
{
    if s.len() == 0 {
        Seq::empty()
    } else {
        match find_char(s, '\n') {
            None => seq![s],
            Some(i) => {
                proof {
                    lemma_find_char(s, '\n');
                }
                seq![strip_cr(s.take(i))] + text_lines(s.skip(i + 1))
            },
        }
    }
}

/// The value of `key` in the `[Desktop Entry]` group of the given lines: the first line of a
/// group so named (blank and `#` lines skipped, a `[...]` line opening a group) whose part
/// before its first `=`, trimmed, is `key`; its part after that `=`, trimmed.
pub open spec fn entry_value(lines: Seq<Seq<char>>, key: Seq<char>, in_section: bool) -> Option<
    Seq<char>,
>
    decreases lines.len(),
{
    if lines.len() == 0 {
        None
    } else {
        let line = trim(lines[0]);
        let rest = lines.drop_first();
        if line.len() == 0 || line[0] == '#' {
            entry_value(rest, key, in_section)
        } else if line[0] == '[' && line.last() == ']' {
            entry_value(rest, key, line == "[Desktop Entry]"@)
        } else if !in_section {
            entry_value(rest, key, in_section)
        } else {
            match find_char(line, '=') {
                None => entry_value(rest, key, in_section),
                Some(i) => if trim(line.take(i)) == key {
                    Some(trim(line.skip(i + 1)))
                } else {
                    entry_value(rest, key, in_section)
                },
            }
        }
    }
}

/// The value of `key` in the `[Desktop Entry]` group of a desktop file's text.
pub open spec fn desktop_file_value(content: Seq<char>, key: Seq<char>) -> Option<Seq<char>> {
    entry_value(text_lines(content), key, false)
}

/// The character sequence an optional string holds.
pub open spec fn option_view(o: Option<String>) -> Option<Seq<char>> {
    match o {
        Some(s) => Some(s@),
        None => None,
    }
}

/// Looks up `key` in the `[Desktop Entry]` group of a desktop file's text (see
/// `desktop_file_value`).
pub fn desktop_entry_value(content: &str, key: &str) -> (r: Option<String>)
    ensures
        option_view(r) == desktop_file_value(content@, key@),
{
    let v = chars_of(content);
    let key_chars = chars_of(key);
    let group = chars_of("[Desktop Entry]");
    let n = v.len();
    let mut pos: usize = 0;
    let mut in_section = false;
    assert(v@.subrange(0, n as int) =~= v@);
    while pos < n
        invariant
            0 <= pos <= n == v.len(),
            key_chars@ == key@,
            group@ == "[Desktop Entry]"@,
            desktop_file_value(content@, key@) == entry_value(
                text_lines(v@.subrange(pos as int, n as int)),
                key@,
                in_section,
            ),
        decreases n - pos,
    {
        let ghost s = v@.subrange(pos as int, n as int);
        let (line_end, next) = match find_char_in(&v, pos, n, '\n') {
            Some(i) => {
                let end = if i > pos && v[i - 1] == '\r' {
                    i - 1
                } else {
                    i
                };
                proof {
                    assert(s.take(i - pos) =~= v@.subrange(pos as int, i as int));
                    assert(s.skip(i - pos + 1) =~= v@.subrange(i + 1, n as int));
                    assert(strip_cr(s.take(i - pos)) =~= v@.subrange(pos as int, end as int));
                }
                (end, i + 1)
            },
            None => (n, n),
        };
        let ghost line = v@.subrange(pos as int, line_end as int);
        let ghost rest = v@.subrange(next as int, n as int);
        assert(text_lines(s) =~= seq![line] + text_lines(rest)) by {
            if next == n && line_end == n {
                assert(rest =~= Seq::<char>::empty());
                assert(line =~= s);
            }
        }
        assert((seq![line] + text_lines(rest))[0] == line);
        assert((seq![line] + text_lines(rest)).drop_first() =~= text_lines(rest));
        let (a, b) = trim_bounds(&v, pos, line_end);
        let ghost t = v@.subrange(a as int, b as int);
        if a == b || v[a] == '#' {
        } else if v[a] == '[' && v[b - 1] == ']' {
            in_section = range_equals(&v, a, b, &group);
        } else if !in_section {
        } else {
            match find_char_in(&v, a, b, '=') {
                None => {},
                Some(i) => {
                    let (ka, kb) = trim_bounds(&v, a, i);
                    assert(t.take(i - a) =~= v@.subrange(a as int, i as int));
                    if range_equals(&v, ka, kb, &key_chars) {
                        let (va, vb) = trim_bounds(&v, i + 1, b);
                        assert(t.skip(i - a + 1) =~= v@.subrange(i + 1, b as int));
                        return Some(string_from_range(&v, va, vb));
                    }
                },
            }
        }
        pos = next;
    }
    assert(v@.subrange(n as int, n as int) =~= Seq::<char>::empty());
    None
}

/// The words `shell_words::split` makes of a command line; none when it refuses the line.
pub uninterp spec fn shell_split(line: Seq<char>) -> Option<Seq<Seq<char>>>;

/// Calls `shell_words::split`; its words, or none where it returns an error, are named by
/// `shell_split`.
#[verifier::external_body]
fn split_shell_words(line: &str) -> (r: Option<Vec<String>>)
    ensures
        match r {
            Some(words) => shell_split(line@) == Some(views(words@)),
            None => shell_split(line@) is None,
        },
{
    shell_words::split(line).ok()
}

/// Whether `a` and `b` are equal but for the case of ASCII letters, as
/// `str::eq_ignore_ascii_case` decides.
pub open spec fn eq_ignore_ascii_case(a: Seq<char>, b: Seq<char>) -> bool {
    ascii_lowercase(a) == ascii_lowercase(b)
}

/// Whether the program `token` names is `env`, in any ASCII case.
pub open spec fn is_env_program(token: Seq<char>) -> bool {
    match file_name(token) {
        Some(name) => eq_ignore_ascii_case(name, "env"@),
        None => false,
    }
}

/// Whether an `env` argument sets a variable: it holds `=` and does not start with `/`.
pub open spec fn is_env_assignment(token: Seq<char>) -> bool {
    token.contains('=') && !(token.len() > 0 && token[0] == '/')
}

/// The first of `tokens` that is not an `env` assignment.
pub open spec fn first_non_assignment(tokens: Seq<Seq<char>>) -> Option<Seq<char>>
    decreases tokens.len(),
{
    if tokens.len() == 0 {
        None
    } else if is_env_assignment(tokens[0]) {
        first_non_assignment(tokens.drop_first())
    } else {
        Some(tokens[0])
    }
}

/// The program a desktop file's `Exec` words run: the first word, or, when that runs `env`,
/// the first later word that does not set a variable.
pub open spec fn exec_program(tokens: Seq<Seq<char>>) -> Option<Seq<char>> {
    if tokens.len() == 0 {
        None
    } else if is_env_program(tokens[0]) {
        first_non_assignment(tokens.drop_first())
    } else {
        Some(tokens[0])
    }
}

/// Whether `v[lo..hi]` equals `w` but for the case of ASCII letters.
fn range_eq_ignore_ascii_case(v: &Vec<char>, lo: usize, hi: usize, w: &Vec<char>) -> (r: bool)
    requires
        lo <= hi <= v.len(),
    ensures
        r == eq_ignore_ascii_case(v@.subrange(lo as int, hi as int), w@),
{
    let ghost a = v@.subrange(lo as int, hi as int);
    if hi - lo != w.len() {
        assert(ascii_lowercase(a).len() != ascii_lowercase(w@).len());
        return false;
    }
    let mut k: usize = 0;
    while k < w.len()
        invariant
            lo <= hi <= v.len(),
            hi - lo == w.len(),
            a == v@.subrange(lo as int, hi as int),
            0 <= k <= w.len(),
            forall|j: int| 0 <= j < k ==> ascii_lowercase(a)[j] == ascii_lowercase(w@)[j],
        decreases w.len() - k,
    {
        if lower_char(v[lo + k]) != lower_char(w[k]) {
            assert(ascii_lowercase(a)[k as int] != ascii_lowercase(w@)[k as int]);
            return false;
        }
        k += 1;
    }
    assert(ascii_lowercase(a) =~= ascii_lowercase(w@));
    true
}

fn is_env_token(token: &String) -> (r: bool)
    ensures
        r == is_env_program(token@),
{
    let v = chars_of(token.as_str());
    assert(v@.subrange(0, v@.len() as int) =~= v@);
    let env = chars_of("env");
    match file_name_bounds(&v, 0, v.len()) {
        Some((a, b)) => range_eq_ignore_ascii_case(&v, a, b, &env),
        None => false,
    }
}

fn is_assignment_token(token: &String) -> (r: bool)
    ensures
        r == is_env_assignment(token@),
{
    let v = chars_of(token.as_str());
    assert(v@.subrange(0, v@.len() as int) =~= v@);
    let has_eq = find_char_in(&v, 0, v.len(), '=').is_some();
    proof {
        lemma_find_char(v@, '=');
        if let Some(i) = find_char(v@, '=') {
            assert(v@[i] == '=');
        }
    }
    has_eq && !(v.len() > 0 && v[0] == '/')
}

/// The program that `Exec` words run (see `exec_program`).
pub fn exec_program_from_tokens(tokens: Vec<String>) -> (r: Option<String>)
    ensures
        option_view(r) == exec_program(views(tokens@)),
{
    let ghost ts = views(tokens@);
    if tokens.len() == 0 {
        return None;
    }
    assert(ts[0] == tokens@[0]@);
    if !is_env_token(&tokens[0]) {
        return Some(tokens[0].clone());
    }
    let mut i: usize = 1;
    assert(ts.drop_first().skip(0) =~= ts.drop_first());
    while i < tokens.len()
        invariant
            1 <= i <= tokens.len(),
            ts == views(tokens@),
            is_env_program(ts[0]),
            first_non_assignment(ts.drop_first()) == first_non_assignment(ts.skip(i as int)),
        decreases tokens.len() - i,
    {
        assert(ts.skip(i as int)[0] == tokens@[i as int]@);
        if !is_assignment_token(&tokens[i]) {
            return Some(tokens[i].clone());
        }
        assert(ts.skip(i as int).drop_first() =~= ts.skip(i + 1));
        i += 1;
    }
    assert(ts.skip(i as int) =~= Seq::<Seq<char>>::empty());
    None
}

/// The program a desktop file's `Exec` line runs: its shell words, then `exec_program`;
/// none when the line does not split.
pub fn extract_exec_program(exec: &str) -> (r: Option<String>)
    ensures
        option_view(r) == match shell_split(exec@) {
            Some(tokens) => exec_program(tokens),
            None => None,
        },
{
    match split_shell_words(exec) {
        Some(tokens) => exec_program_from_tokens(tokens),
        None => None,
    }
}

/// The text `String::from_utf8_lossy` makes of some bytes.
pub uninterp spec fn utf8_lossy(bytes: Seq<u8>) -> Seq<char>;

/// Calls `String::from_utf8_lossy`; its text is named by `utf8_lossy`, and for valid UTF-8 it
/// is the text the bytes encode.
#[verifier::external_body]
fn decode_utf8_lossy(bytes: &[u8]) -> (s: String)
    ensures
        s@ == utf8_lossy(bytes@),
        vstd::utf8::valid_utf8(bytes@) ==> s@ == vstd::utf8::decode_utf8(bytes@),
{
    String::from_utf8_lossy(bytes).into_owned()
}

/// How a failed command ended: its exit code, or that a signal ended it.
pub open spec fn exit_detail(exit_code: Option<i32>) -> Seq<char> {
    match exit_code {
        Some(code) => "exit code "@ + signed_decimal(code as int),
        None => "terminated by signal"@,
    }
}

/// The error for a failed command: its label, how it ended and, when there was any, what it
/// wrote to standard error.
pub open spec fn failure_message(label: Seq<char>, exit_code: Option<i32>, stderr: Seq<char>) -> Seq<
    char,
> {
    if stderr.len() == 0 {
        label + " failed ("@ + exit_detail(exit_code) + ")."@
    } else {
        label + " failed ("@ + exit_detail(exit_code) + "; stderr: "@ + stderr + ")."@
    }
}

/// The error for a failed command, given the text of its standard error, which is trimmed.
pub fn command_failure_message(command_label: &str, exit_code: Option<i32>, stderr: &str) -> (r:
    String)
    ensures
        r@ == failure_message(command_label@, exit_code, trim(stderr@)),
{
    let stderr = trim_str(stderr);
    let detail = match exit_code {
        Some(code) => {
            let mut d = String::from_str("exit code ");
            let digits = signed_decimal_string(code);
            d.append(digits.as_str());
            d
        },
        None => String::from_str("terminated by signal"),
    };
    let mut message = String::from_str(command_label);
    message.append(" failed (");
    message.append(detail.as_str());
    if stderr.is_empty() {
        message.append(").");
    } else {
        message.append("; stderr: ");
        message.append(stderr);
        message.append(").");
    }
    message
}

/// The outcome of a command: success, or the error `failure_message` gives, its standard
/// error decoded as `String::from_utf8_lossy` does and trimmed.
pub fn ensure_success(command_label: &str, success: bool, exit_code: Option<i32>, stderr: &[u8]) -> (r:
    Result<(), String>)
    ensures
        success ==> r is Ok,
        !success ==> (r matches Err(e) && e@ == failure_message(
            command_label@,
            exit_code,
            trim(utf8_lossy(stderr@)),
        )),
{
    if success {
        return Ok(());
    }
    let text = decode_utf8_lossy(stderr);
    Err(command_failure_message(command_label, exit_code, text.as_str()))
}

/// The MIME type whose default handler opens URLs of a scheme.
pub open spec fn scheme_handler_type(scheme: Seq<char>) -> Seq<char> {
    "x-scheme-handler/"@ + scheme
}

/// The MIME type to ask `xdg-mime` about for a URL scheme.
pub fn scheme_handler_mime_type(scheme: &str) -> (r: String)
    ensures
        r@ == scheme_handler_type(scheme@),
{
    let mut query = String::from_str("x-scheme-handler/");
    query.append(scheme);
    query
}

/// The desktop entry a default-handler query names: its output trimmed, none when blank.
pub open spec fn handler_name(output: Seq<char>) -> Option<Seq<char>> {
    if trim(output).len() == 0 {
        None
    } else {
        Some(trim(output))
    }
}

/// The desktop entry named by the text a default-handler query printed (see `handler_name`).
pub fn default_handler_name(stdout: &str) -> (r: Option<String>)
    ensures
        option_view(r) == handler_name(stdout@),
{
    let t = trim_str(stdout);
    if t.is_empty() {
        None
    } else {
        Some(String::from_str(t))
    }
}

/// The desktop entry a default-handler query named: none when the query failed, else what
/// `handler_name` makes of its output decoded as `String::from_utf8_lossy` does.
pub fn default_handler_from_output(success: bool, stdout: &[u8]) -> (r: Option<String>)
    ensures
        !success ==> r is None,
        success ==> option_view(r) == handler_name(utf8_lossy(stdout@)),
{
    if !success {
        return None;
    }
    let text = decode_utf8_lossy(stdout);
    default_handler_name(text.as_str())
}

/// The program that opens URLs on Linux.
#[derive(Clone, Copy, Debug, PartialEq, Eq)]
pub enum LinuxOpener {
    /// `xdg-open URL`
    XdgOpen,
    /// `gio open URL`
    GioOpen,
}

/// Picks `xdg-open` where it is installed, else `gio open`, else fails.
pub fn choose_linux_opener(xdg_open_available: bool, gio_available: bool) -> (r: Result<
    LinuxOpener,
    String,
>)
    ensures
        xdg_open_available ==> r == Ok::<LinuxOpener, String>(LinuxOpener::XdgOpen),
        !xdg_open_available && gio_available ==> r == Ok::<LinuxOpener, String>(
            LinuxOpener::GioOpen,
        ),
        !xdg_open_available && !gio_available ==> (r matches Err(e) && e@
            == "Neither `xdg-open` nor `gio open` is available."@),
{
    if xdg_open_available {
        Ok(LinuxOpener::XdgOpen)
    } else if gio_available {
        Ok(LinuxOpener::GioOpen)
    } else {
        Err(String::from_str("Neither `xdg-open` nor `gio open` is available."))
    }
}

/// The directories searched for desktop files, given `XDG_DATA_HOME`, `HOME` and
/// `XDG_DATA_DIRS`: the `applications` directory of the user's data directory (under
/// `XDG_DATA_HOME`, else `HOME/.local/share`, else none), then that of each directory listed
/// in `XDG_DATA_DIRS`, or of `/usr/local/share` and `/usr/share` when it is not set.
pub open spec fn desktop_search_dirs(
    data_home: Option<Seq<char>>,
    home: Option<Seq<char>>,
    data_dirs: Option<Seq<char>>,
) -> Seq<Seq<char>> {
    let user = match data_home {
        Some(dir) => seq![path_join(dir, "applications"@)],
        None => match home {
            Some(dir) => seq![path_join(dir, ".local/share/applications"@)],
            None => Seq::empty(),
        },
    };
    let system = match data_dirs {
        Some(list) => joined_path_list(list, "applications"@),
        None => seq!["/usr/local/share/applications"@, "/usr/share/applications"@],
    };
    user + system
}

/// The user's directory comes first and is decided by `XDG_DATA_HOME` and `HOME` alone;
/// the system directories follow and are decided by `XDG_DATA_DIRS` alone.
pub proof fn lemma_desktop_search_dirs_order(
    data_home: Option<Seq<char>>,
    home: Option<Seq<char>>,
    data_dirs: Option<Seq<char>>,
)
    ensures
        data_home matches Some(dir) ==> desktop_search_dirs(data_home, home, data_dirs) == seq![
            path_join(dir, "applications"@),
        ] + desktop_search_dirs(None, None, data_dirs),
        data_home is None && home is Some ==> desktop_search_dirs(data_home, home, data_dirs)
            == seq![path_join(home->0, ".local/share/applications"@)] + desktop_search_dirs(
            None,
            None,
            data_dirs,
        ),
        data_home is None && home is None ==> desktop_search_dirs(data_home, home, data_dirs)
            == desktop_search_dirs(None, None, data_dirs),
        desktop_search_dirs(None, None, None) == seq![
            "/usr/local/share/applications"@,
            "/usr/share/applications"@,
        ],
        data_dirs matches Some(list) ==> desktop_search_dirs(None, None, data_dirs)
            == joined_path_list(list, "applications"@),
{
    let system = desktop_search_dirs(None, None, data_dirs);
    assert(Seq::<Seq<char>>::empty() + system =~= system);
    assert(Seq::<Seq<char>>::empty() + seq![
        "/usr/local/share/applications"@,
        "/usr/share/applications"@,
    ] =~= seq!["/usr/local/share/applications"@, "/usr/share/applications"@]);
    if let Some(list) = data_dirs {
        assert(Seq::<Seq<char>>::empty() + joined_path_list(list, "applications"@)
            =~= joined_path_list(list, "applications"@));
    }
}

/// The directories to search for desktop files (see `desktop_search_dirs`).
pub fn desktop_entry_search_dirs(
    xdg_data_home: Option<&str>,
    home: Option<&str>,
    xdg_data_dirs: Option<&str>,
) -> (r: Vec<String>)
    ensures
        views(r@) == desktop_search_dirs(
            str_option_view(xdg_data_home),
            str_option_view(home),
            str_option_view(xdg_data_dirs),
        ),
{
    let mut dirs: Vec<String> = Vec::new();
    match xdg_data_home {
        Some(dir) => dirs.push(join_path(dir, "applications")),
        None => match home {
            Some(dir) => dirs.push(join_path(dir, ".local/share/applications")),
            None => {},
        },
    }
    let ghost user = views(dirs@);
    let mut system = match xdg_data_dirs {
        Some(list) => join_path_list(list, "applications"),
        None => {
            let mut fallback: Vec<String> = Vec::new();
            fallback.push(String::from_str("/usr/local/share/applications"));
            fallback.push(String::from_str("/usr/share/applications"));
            fallback
        },
    };
    let ghost system_view = views(system@);
    dirs.append(&mut system);
    assert(views(dirs@) =~= user + system_view);
    dirs
}

/// Where a desktop file of the given name would lie in each search directory, in order.
pub open spec fn desktop_entry_paths(desktop_entry: Seq<char>, dirs: Seq<Seq<char>>) -> Seq<Seq<char>> {
    dirs.map_values(|dir: Seq<char>| path_join(dir, desktop_entry))
}

/// Where a desktop file of the given name would lie in each search directory, in order.
pub fn desktop_entry_path_list(desktop_entry: &str, search_dirs: &Vec<String>) -> (r: Vec<String>)
    ensures
        views(r@) == desktop_entry_paths(desktop_entry@, views(search_dirs@)),
{
    let mut paths: Vec<String> = Vec::new();
    let mut i: usize = 0;
    while i < search_dirs.len()
        invariant
            0 <= i <= search_dirs.len(),
            views(paths@) == desktop_entry_paths(desktop_entry@, views(search_dirs@).take(i as int)),
        decreases search_dirs.len() - i,
    {
        let path = join_path(search_dirs[i].as_str(), desktop_entry);
        let ghost before = paths@;
        paths.push(path);
        assert(views(search_dirs@).take(i + 1) =~= views(search_dirs@).take(i as int).push(
            search_dirs@[i as int]@,
        ));
        assert(views(paths@) =~= views(before).push(path@));
        assert(desktop_entry_paths(desktop_entry@, views(search_dirs@).take(i + 1))
            =~= desktop_entry_paths(desktop_entry@, views(search_dirs@).take(i as int)).push(
            path_join(search_dirs@[i as int]@, desktop_entry@),
        ));
        i += 1;
    }
    assert(views(search_dirs@).take(search_dirs.len() as int) =~= views(search_dirs@));
    paths
}

/// Whether `r` is the first of `paths` whose flag in `exists` is set, or none when no flag is.
pub open spec fn is_first_existing(r: Option<Seq<char>>, paths: Seq<Seq<char>>, exists: Seq<bool>) -> bool {
    &&& (r is None <==> forall|i: int| 0 <= i < exists.len() ==> !exists[i])
    &&& (r matches Some(p) ==> exists|i: int|
        0 <= i < paths.len() && exists[i] && p == paths[i] && forall|j: int|
            0 <= j < i ==> !exists[j])
}

/// The first of `paths` that `exists` marks as existing; none when none is marked.
pub fn first_existing_path(paths: &Vec<String>, exists: &Vec<bool>) -> (r: Option<String>)
    requires
        paths@.len() == exists@.len(),
    ensures
        is_first_existing(option_view(r), views(paths@), exists@),
{
    let mut i: usize = 0;
    while i < paths.len()
        invariant
            0 <= i <= paths.len() == exists.len(),
            forall|j: int| 0 <= j < i ==> !exists@[j],
        decreases paths.len() - i,
    {
        if exists[i] {
            let path = paths[i].clone();
            assert(views(paths@)[i as int] == path@);
            return Some(path);
        }
        i += 1;
    }
    None
}

/// The path of the first search directory's copy of a desktop file, given for each search
/// directory, in order, whether that copy exists as a regular file; none when no copy does.
/// The user's data directory comes first, so its copy overrides the system ones.
pub fn find_desktop_entry_path(
    desktop_entry: &str,
    search_dirs: &Vec<String>,
    is_file: &Vec<bool>,
) -> (r: Option<String>)
    requires
        is_file@.len() == search_dirs@.len(),
    ensures
        is_first_existing(
            option_view(r),
            desktop_entry_paths(desktop_entry@, views(search_dirs@)),
            is_file@,
        ),
{
    let paths = desktop_entry_path_list(desktop_entry, search_dirs);
    assert(paths@.len() == views(paths@).len());
    assert(search_dirs@.len() == views(search_dirs@).len());
    first_existing_path(&paths, is_file)
}

/// The sequence holding the optional value, if there is one.
pub open spec fn option_seq(o: Option<Seq<char>>) -> Seq<Seq<char>> {
    match o {
        Some(x) => seq![x],
        None => Seq::empty(),
    }
}

/// The focus candidates of a URL handler: those its desktop id names, then its
/// `StartupWMClass` and the program its `Exec` runs where known, normalized and deduplicated.
pub open spec fn handler_focus_candidates(
    desktop_entry: Seq<char>,
    startup_wm_class: Option<Seq<char>>,
    exec_program: Option<Seq<char>>,
) -> Seq<Seq<char>> {
    deduped_candidates(
        desktop_id_candidates(desktop_entry) + option_seq(startup_wm_class) + option_seq(
            exec_program,
        ),
    )
}

/// The focus candidates of a URL handler hold no repeat and no empty string; each is the
/// normalized form of its desktop-id candidates, its `StartupWMClass` or its `Exec` program,
/// and each of those whose normalized form is not empty is among them.
pub proof fn lemma_handler_focus_candidates_complete(
    desktop_entry: Seq<char>,
    startup_wm_class: Option<Seq<char>>,
    exec_program: Option<Seq<char>>,
)
    ensures
        ({
            let r = handler_focus_candidates(desktop_entry, startup_wm_class, exec_program);
            let ids = desktop_id_candidates(desktop_entry);
            &&& r.no_duplicates()
            &&& forall|i: int| 0 <= i < r.len() ==> (#[trigger] r[i]).len() > 0
            &&& forall|i: int|
                #![trigger r[i]]
                0 <= i < r.len() ==> (exists|j: int|
                    0 <= j < ids.len() && r[i] == normalized_candidate(#[trigger] ids[j]))
                    || (startup_wm_class is Some && r[i] == normalized_candidate(
                    startup_wm_class->0,
                )) || (exec_program is Some && r[i] == normalized_candidate(exec_program->0))
            &&& forall|j: int|
                0 <= j < ids.len() && normalized_candidate(#[trigger] ids[j]).len() > 0
                    ==> r.contains(normalized_candidate(ids[j]))
            &&& (startup_wm_class is Some && normalized_candidate(startup_wm_class->0).len() > 0)
                ==> r.contains(normalized_candidate(startup_wm_class->0))
            &&& (exec_program is Some && normalized_candidate(exec_program->0).len() > 0)
                ==> r.contains(normalized_candidate(exec_program->0))
        }),
{
    let ids = desktop_id_candidates(desktop_entry);
    let with_class = ids + option_seq(startup_wm_class);
    let all = with_class + option_seq(exec_program);
    lemma_deduped_candidates(all);
    let r = deduped_candidates(all);
    assert forall|j: int|
        0 <= j < ids.len() && normalized_candidate(#[trigger] ids[j]).len() > 0 implies r.contains(
        normalized_candidate(ids[j]),
    ) by {
        assert(all[j] == ids[j]);
    }
    if let Some(c) = startup_wm_class {
        assert(all[ids.len() as int] == c);
    }
    if let Some(p) = exec_program {
        assert(all[with_class.len() as int] == p);
    }
    assert forall|i: int|
        #![trigger r[i]]
        0 <= i < r.len() implies (exists|j: int|
        0 <= j < ids.len() && r[i] == normalized_candidate(#[trigger] ids[j])) || (
    startup_wm_class is Some && r[i] == normalized_candidate(startup_wm_class->0)) || (
    exec_program is Some && r[i] == normalized_candidate(exec_program->0)) by {
        let k = choose|k: int| 0 <= k < all.len() && normalized_candidate(#[trigger] all[k]) == r[i];
        if k < ids.len() {
            assert(all[k] == ids[k]);
        } else if k < with_class.len() {
            assert(all[k] == startup_wm_class->0);
        } else {
            assert(all[k] == exec_program->0);
        }
    }
}

/// The focus candidates of a URL handler, given what its desktop file gave (see
/// `handler_focus_candidates`).
pub fn assemble_focus_candidates(
    desktop_entry: &str,
    startup_wm_class: Option<String>,
    exec_program: Option<String>,
) -> (r: Vec<String>)
    ensures
        views(r@) == handler_focus_candidates(
            desktop_entry@,
            option_view(startup_wm_class),
            option_view(exec_program),
        ),
{
    let mut candidates = derive_focus_candidates_from_desktop_id(desktop_entry);
    let ghost derived = views(candidates@);
    match startup_wm_class {
        Some(class) => {
            candidates.push(class);
        },
        None => {},
    }
    let ghost with_class = views(candidates@);
    assert(with_class =~= derived + option_seq(option_view(startup_wm_class)));
    match exec_program {
        Some(program) => {
            candidates.push(program);
        },
        None => {},
    }
    assert(views(candidates@) =~= with_class + option_seq(option_view(exec_program)));
    dedupe_focus_candidates(candidates)
}

/// The `StartupWMClass` of a desktop file's text, if it has one.
pub open spec fn startup_wm_class_of(desktop_file: Option<Seq<char>>) -> Option<Seq<char>> {
    match desktop_file {
        Some(content) => desktop_file_value(content, "StartupWMClass"@),
        None => None,
    }
}

/// The program a desktop file's `Exec` runs, if it has one that splits into words.
pub open spec fn exec_program_of(desktop_file: Option<Seq<char>>) -> Option<Seq<char>> {
    match desktop_file {
        Some(content) => match desktop_file_value(content, "Exec"@) {
            Some(exec) => match shell_split(exec) {
                Some(tokens) => exec_program(tokens),
                None => None,
            },
            None => None,
        },
        None => None,
    }
}

/// The focus candidates of the URL handler with the given desktop id, given the text of its
/// desktop file where one was found and read.
pub fn resolve_focus_candidates(desktop_entry: &str, desktop_file: Option<&str>) -> (r: Vec<String>)
    ensures
        views(r@) == handler_focus_candidates(
            desktop_entry@,
            startup_wm_class_of(str_option_view(desktop_file)),
            exec_program_of(str_option_view(desktop_file)),
        ),
{
    let (startup_wm_class, exec_program) = match desktop_file {
        Some(content) => {
            let class = desktop_entry_value(content, "StartupWMClass");
            let program = match desktop_entry_value(content, "Exec") {
                Some(exec) => extract_exec_program(exec.as_str()),
                None => None,
            };
            (class, program)
        },
        None => (None, None),
    };
    assemble_focus_candidates(desktop_entry, startup_wm_class, exec_program)
}

} // verus!
