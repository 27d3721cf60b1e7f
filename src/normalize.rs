use regex::Regex;
use vstd::prelude::*;
use vstd::string::*;

verus! {

/// The Unicode `White_Space` characters, which `char::is_whitespace` accepts.
pub open spec fn is_space_char(c: char) -> bool {
    let u = c as u32;
    (9 <= u && u <= 13) || u == 0x20 || u == 0x85 || u == 0xa0 || u == 0x1680 || (0x2000 <= u
        && u <= 0x200a) || u == 0x2028 || u == 0x2029 || u == 0x202f || u == 0x205f || u == 0x3000
}

/// Whether `c` is whitespace, as `char::is_whitespace` decides.
pub fn is_space(c: char) -> (r: bool)
    ensures
        r == is_space_char(c),
{
    let u = c as u32;
    (9 <= u && u <= 13) || u == 0x20 || u == 0x85 || u == 0xa0 || u == 0x1680 || (0x2000 <= u
        && u <= 0x200a) || u == 0x2028 || u == 0x2029 || u == 0x202f || u == 0x205f || u == 0x3000
}

/// Index of the first `>` in `s` at or after `from`.
pub open spec fn next_gt(s: Seq<char>, from: int) -> Option<int>
    decreases s.len() - from,
{
    if from < 0 || from >= s.len() {
        None
    } else if s[from] == '>' {
        Some(from)
    } else {
        next_gt(s, from + 1)
    }
}

/// Length of the HTML-tag-like run `</?[^>]+>` at the start of `s`, or 0 where none starts
/// there: a `<`, at least one character other than `>`, then the first `>` after them.
pub open spec fn tag_len(s: Seq<char>) -> int {
    if s.len() >= 3 && s[0] == '<' && s[1] != '>' {
        match next_gt(s, 2) {
            Some(j) => j + 1,
            None => 0,
        }
    } else {
        0
    }
}

/// `s` with every HTML-tag-like run removed, scanning from the left; after a run the scan
/// goes on behind its closing `>`.
pub open spec fn strip_tags(s: Seq<char>) -> Seq<char>
    decreases s.len(),
{
    if s.len() == 0 {
        s
    } else if 0 < tag_len(s) <= s.len() {
        strip_tags(s.subrange(tag_len(s), s.len() as int))
    } else {
        seq![s[0]] + strip_tags(s.drop_first())
    }
}

/// Characters that never stand in a slug: ASCII punctuation and CJK punctuation marks.
pub open spec fn is_forbidden(c: char) -> bool {
    let u = c as u32;
    ||| c == '|' || c == '$' || c == '&' || c == '`' || c == '~' || c == '=' || c == '\\'
    ||| c == '/' || c == '@' || c == '+' || c == '*' || c == '!' || c == '?' || c == '('
    ||| c == '{' || c == '[' || c == ']' || c == '}' || c == ')' || c == '<' || c == '>'
    ||| c == '.' || c == ',' || c == ';' || c == ':' || c == '\'' || c == '"' || c == '^'
    ||| c == '%' || c == '#' || c == ' '
    ||| u == 0x3002 || u == 0xff1f || u == 0xff01 || u == 0xff0c || u == 0x3001 || u == 0xff1b
    ||| u == 0xff1a || u == 0x201c || u == 0x201d || u == 0x3010 || u == 0x3011 || u == 0xff08
    ||| u == 0xff09 || u == 0x3014 || u == 0x3015 || u == 0xff3b || u == 0xff3d || u == 0xfe43
    ||| u == 0xfe44 || u == 0x2018 || u == 0x2019 || u == 0xfe41 || u == 0xfe42 || u == 0x2014
    ||| u == 0x2026 || u == 0xff0d || u == 0xff5e || u == 0x300a || u == 0x300b || u == 0x3008
    ||| u == 0x3009 || u == 0x300c || u == 0x300d
}

/// `s` without its forbidden characters.
pub open spec fn drop_forbidden(s: Seq<char>) -> Seq<char> {
    s.filter(|c: char| !is_forbidden(c))
}

/// What `str::to_lowercase` returns: it depends on the characters alone.
pub uninterp spec fn lowercase_of(s: Seq<char>) -> Seq<char>;

/// Relies on `str::to_lowercase` for Unicode lower-casing.
#[verifier::external_body]
fn to_lowercase(s: &str) -> (r: String)
    ensures
        r@ == lowercase_of(s@),
{
    s.to_lowercase()
}

/// Relies on `String::push`: the character is appended.
#[verifier::external_body]
pub(crate) fn push_char(s: &mut String, c: char)
    ensures
        final(s)@ == old(s)@.push(c),
{
    s.push(c)
}

/// Relies on `regex::Regex::replace_all` with the pattern `</?[^>]+>` and an empty
/// replacement: leftmost-first matching removes each tag-like run, left to right.
#[verifier::external_body]
fn remove_tags(s: &str) -> (r: String)
    ensures
        r@ == strip_tags(s@),
{
    Regex::new("</?[^>]+>").unwrap().replace_all(s, "").into_owned()
}

/// Relies on `regex::Regex::replace_all` with a class of the forbidden characters and an
/// empty replacement: every character of the class is removed.
#[verifier::external_body]
fn remove_forbidden(s: &str) -> (r: String)
    ensures
        r@ == drop_forbidden(s@),
{
    let class = "[|$&`~=\\\\/@+*!?({\\[\\]})<>.,;:'\"^%#\u{3002}\u{ff1f}\u{ff01}\u{ff0c}\u{3001}\u{ff1b}\u{ff1a}\u{201c}\u{201d}\u{3010}\u{3011}\u{ff08}\u{ff09}\u{3014}\u{3015}\u{ff3b}\u{ff3d}\u{fe43}\u{fe44} \u{2018}\u{2019}\u{fe41}\u{fe42}\u{2014}\u{2026}\u{ff0d}\u{ff5e}\u{300a}\u{300b}\u{3008}\u{3009}\u{300c}\u{300d}]";
    Regex::new(class).unwrap().replace_all(s, "").into_owned()
}

/// The characters of `s`, one by one.
pub fn chars_of(s: &str) -> (r: Vec<char>)
    ensures
        r@ == s@,
{
    let n = s.unicode_len();
    let mut v: Vec<char> = Vec::new();
    let mut i: usize = 0;
    while i < n
        invariant
            n == s@.len(),
            i <= n,
            v@ == s@.subrange(0, i as int),
        decreases n - i,
    {
        v.push(s.get_char(i));
        i += 1;
        assert(v@ =~= s@.subrange(0, i as int));
    }
    assert(v@ =~= s@);
    v
}

/// A `String` holding the characters of `v`.
pub fn string_of(v: &Vec<char>) -> (r: String)
    ensures
        r@ == v@,
{
    let mut s = String::new();
    let mut i: usize = 0;
    while i < v.len()
        invariant
            i <= v@.len(),
            s@ == v@.subrange(0, i as int),
        decreases v@.len() - i,
    {
        push_char(&mut s, v[i]);
        i += 1;
        assert(s@ =~= v@.subrange(0, i as int));
    }
    assert(s@ =~= v@);
    s
}

/// `s` without its leading whitespace.
pub open spec fn trim_start(s: Seq<char>) -> Seq<char>
    decreases s.len(),
{
    if s.len() > 0 && is_space_char(s[0]) {
        trim_start(s.drop_first())
    } else {
        s
    }
}

/// `s` without its trailing whitespace.
pub open spec fn trim_end(s: Seq<char>) -> Seq<char>
    decreases s.len(),
{
    if s.len() > 0 && is_space_char(s.last()) {
        trim_end(s.drop_last())
    } else {
        s
    }
}

pub open spec fn trimmed(s: Seq<char>) -> Seq<char> {
    trim_end(trim_start(s))
}

/// `s` with whitespace removed from both ends.
pub fn trim(s: &Vec<char>) -> (r: Vec<char>)
    ensures
        r@ == trimmed(s@),
{
    let n = s.len();
    let mut i: usize = 0;
    assert(s@.subrange(0, n as int) =~= s@);
    while i < n && is_space(s[i])
        invariant
            n == s@.len(),
            i <= n,
            trim_start(s@) == trim_start(s@.subrange(i as int, n as int)),
        decreases n - i,
    {
        assert(s@.subrange(i as int, n as int).drop_first() =~= s@.subrange(i + 1, n as int));
        i += 1;
    }
    let ghost front = s@.subrange(i as int, n as int);
    assert(trim_start(s@) == front);
    let mut j: usize = n;
    while j > i && is_space(s[j - 1])
        invariant
            i <= j <= n,
            n == s@.len(),
            trim_end(front) == trim_end(s@.subrange(i as int, j as int)),
        decreases j,
    {
        assert(s@.subrange(i as int, j as int).drop_last() =~= s@.subrange(i as int, j - 1));
        j -= 1;
    }
    let r = vstd::slice::slice_to_vec(vstd::slice::slice_subrange(s.as_slice(), i, j));
    assert(r@ =~= s@.subrange(i as int, j as int));
    r
}

/// `s` with every space `' '` replaced by a dash `'-'`.
pub open spec fn dashed(s: Seq<char>) -> Seq<char> {
    s.map_values(|c: char| if c == ' ' { '-' } else { c })
}

/// `s` with every space replaced by a dash.
pub fn dash_spaces(s: &Vec<char>) -> (r: Vec<char>)
    ensures
        r@ == dashed(s@),
{
    let mut r: Vec<char> = Vec::new();
    let mut i: usize = 0;
    while i < s.len()
        invariant
            i <= s@.len(),
            r@ == dashed(s@.subrange(0, i as int)),
        decreases s@.len() - i,
    {
        let c = s[i];
        r.push(if c == ' ' { '-' } else { c });
        i += 1;
        assert(r@ =~= dashed(s@.subrange(0, i as int)));
    }
    assert(s@.subrange(0, s@.len() as int) =~= s@);
    r
}

/// The maximal runs of non-whitespace characters of `s`, in order.
pub open spec fn words(s: Seq<char>) -> Seq<Seq<char>>
    decreases s.len(),
{
    if s.len() == 0 {
        seq![]
    } else {
        let init = s.drop_last();
        let c = s.last();
        if is_space_char(c) {
            words(init)
        } else if init.len() > 0 && !is_space_char(init.last()) && words(init).len() > 0 {
            let w = words(init);
            w.update(w.len() - 1, w.last().push(c))
        } else {
            words(init).push(seq![c])
        }
    }
}

/// The words joined by single spaces.
pub open spec fn join_words(ws: Seq<Seq<char>>) -> Seq<char>
    decreases ws.len(),
{
    if ws.len() == 0 {
        seq![]
    } else if ws.len() == 1 {
        ws[0]
    } else {
        join_words(ws.drop_last()) + seq![' '] + ws.last()
    }
}

/// The display title of raw heading text: tags removed, whitespace runs collapsed to one
/// space, and no whitespace at either end.
pub open spec fn titleized(s: Seq<char>) -> Seq<char> {
    join_words(words(strip_tags(s)))
}

/// The slug of raw heading text, before it is made unique.
pub open spec fn slugified(s: Seq<char>) -> Seq<char> {
    slug_of_lowered(lowercase_of(s))
}

/// The slug of lower-cased heading text: trimmed, each space turned into a dash, HTML-tag-like
/// runs removed, then every forbidden character removed.
pub open spec fn slug_of_lowered(lower: Seq<char>) -> Seq<char> {
    drop_forbidden(strip_tags(dashed(trimmed(lower))))
}

proof fn lemma_join_extend_last(ws: Seq<Seq<char>>, c: char)
    requires
        ws.len() > 0,
    ensures
        join_words(ws.update(ws.len() - 1, ws.last().push(c))) == join_words(ws).push(c),
{
    let u = ws.update(ws.len() - 1, ws.last().push(c));
    if ws.len() == 1 {
        assert(join_words(u) == u[0]);
    } else {
        assert(u.drop_last() =~= ws.drop_last());
        assert(join_words(u) == join_words(u.drop_last()) + seq![' '] + u.last());
        assert(join_words(u) =~= join_words(ws).push(c));
    }
}

proof fn lemma_join_push(ws: Seq<Seq<char>>, c: char)
    ensures
        join_words(ws.push(seq![c])) == if ws.len() == 0 {
            seq![c]
        } else {
            join_words(ws) + seq![' ', c]
        },
{
    let u = ws.push(seq![c]);
    if ws.len() == 0 {
        assert(join_words(u) == u[0]);
    } else {
        assert(u.drop_last() =~= ws);
        assert(join_words(u) =~= join_words(ws) + seq![' ', c]);
    }
}

/// Collapses each whitespace run of `t` into one space and drops whitespace at both ends.
fn collapse_whitespace(t: &Vec<char>) -> (r: Vec<char>)
    ensures
        r@ == join_words(words(t@)),
{
    let mut r: Vec<char> = Vec::new();
    let mut i: usize = 0;
    while i < t.len()
        invariant
            i <= t@.len(),
            r@ == join_words(words(t@.subrange(0, i as int))),
            i > 0 && !is_space_char(t@[i - 1]) ==> words(t@.subrange(0, i as int)).len() > 0,
            (r@.len() == 0) == (words(t@.subrange(0, i as int)).len() == 0),
        decreases t@.len() - i,
    {
        let c = t[i];
        let ghost pre = t@.subrange(0, i as int);
        let ghost cur = t@.subrange(0, i + 1);
        assert(cur.drop_last() =~= pre);
        assert(cur.last() == c);
        if is_space(c) {
        } else if i > 0 && !is_space(t[i - 1]) {
            assert(pre.last() == t@[i - 1]);
            proof {
                lemma_join_extend_last(words(pre), c);
            }
            r.push(c);
        } else {
            proof {
                lemma_join_push(words(pre), c);
            }
            if r.len() > 0 {
                r.push(' ');
            }
            r.push(c);
            assert(r@ =~= join_words(words(cur)));
        }
        i += 1;
    }
    assert(t@.subrange(0, t@.len() as int) =~= t@);
    r
}

/// The display title of raw heading text: HTML-tag-like runs removed, whitespace runs
/// collapsed to single spaces, both ends trimmed. Case, punctuation and every script are
/// kept as they are.
pub fn titleize(text: &str) -> (r: String)
    ensures
        r@ == titleized(text@),
{
    let stripped = remove_tags(text);
    let cs = chars_of(stripped.as_str());
    let collapsed = collapse_whitespace(&cs);
    string_of(&collapsed)
}

/// The slug of raw heading text: lower-cased, then `slugify_lowered`.
pub fn slugify(text: &str) -> (r: String)
    ensures
        r@ == slugified(text@),
{
    let lower = to_lowercase(text);
    slugify_lowered(lower.as_str())
}

/// The slug of text that is already lower-cased: trimmed, each space turned into a dash,
/// HTML-tag-like runs removed, then every forbidden character removed.
pub fn slugify_lowered(lower: &str) -> (r: String)
    ensures
        r@ == slug_of_lowered(lower@),
{
    let cs = chars_of(lower);
    let t = trim(&cs);
    let d = dash_spaces(&t);
    let joined = string_of(&d);
    let stripped = remove_tags(joined.as_str());
    remove_forbidden(stripped.as_str())
}

} // verus!
