use crate::header::{link_text, models, Header, HeaderModel};
use crate::normalize::push_char;
use vstd::prelude::*;
use vstd::string::*;
use vstd::utf8::*;

verus! {

/// How the lines of a table of contents are marked.
pub enum Formatter<'a> {
    /// `-`, `*` and `+` in turn, by heading level.
    AlternatingBullets,
    DashBullets,
    PlusBullets,
    AsteriskBullets,
    /// `1.` on every line; Markdown renderers number the items.
    Numbers,
    /// A marker of the caller's choice.
    Custom(&'a str),
}

impl<'a> Default for Formatter<'a> {
    fn default() -> (r: Self)
        ensures
            r is AlternatingBullets,
    {
        Formatter::AlternatingBullets
    }
}

/// The bullet of the alternating style for a level: `-`, `*`, `+`, then `-` again.
pub open spec fn alternating_bullet(level: int) -> Seq<char> {
    if (level - 1) % 3 == 0 {
        seq!['-']
    } else if (level - 1) % 3 == 1 {
        seq!['*']
    } else {
        seq!['+']
    }
}

/// The marker that `f` puts before a heading of the given level.
pub open spec fn bullet_of(f: Formatter, level: int) -> Seq<char> {
    match f {
        Formatter::AlternatingBullets => alternating_bullet(level),
        Formatter::DashBullets => seq!['-'],
        Formatter::PlusBullets => seq!['+'],
        Formatter::AsteriskBullets => seq!['*'],
        Formatter::Numbers => seq!['1', '.'],
        Formatter::Custom(b) => b@,
    }
}

pub open spec fn spaces(n: nat) -> Seq<char> {
    Seq::new(n, |i: int| ' ')
}

/// One line of a table of contents: `(level - 1) * (marker characters + 1)` spaces, the
/// marker, a space, the heading's link, a line feed.
pub open spec fn toc_line(bullet: Seq<char>, h: HeaderModel) -> Seq<char> {
    spaces(((h.level - 1) * (bullet.len() + 1)) as nat) + bullet + seq![' '] + link_text(h)
        + seq!['\n']
}

/// The table of contents that `f` renders: one line per heading, in order.
pub open spec fn toc_text(f: Formatter, hs: Seq<HeaderModel>) -> Seq<char>
    decreases hs.len(),
{
    if hs.len() == 0 {
        seq![]
    } else {
        toc_text(f, hs.drop_last()) + toc_line(bullet_of(f, hs.last().level), hs.last())
    }
}

/// Renders headings into a table of contents.
pub trait Format {
    /// The bytes of the table of contents rendered for the headings.
    spec fn toc(&self, hs: Seq<HeaderModel>) -> Seq<u8>;

    /// Appends the table of contents for `headers` to `out`.
    fn fmt(&self, out: &mut Vec<u8>, headers: Vec<Header>)
        ensures
            final(out)@ == old(out)@ + self.toc(models(headers@)),
    ;
}

/// Appends `bytes` to `out`.
pub(crate) fn append_bytes(out: &mut Vec<u8>, bytes: &[u8])
    ensures
        final(out)@ == old(out)@ + bytes@,
{
    let ghost start = out@;
    let mut i: usize = 0;
    while i < bytes.len()
        invariant
            i <= bytes@.len(),
            out@ == start + bytes@.subrange(0, i as int),
        decreases bytes@.len() - i,
    {
        out.push(bytes[i]);
        i += 1;
        assert(out@ =~= start + bytes@.subrange(0, i as int));
    }
    assert(bytes@.subrange(0, bytes@.len() as int) =~= bytes@);
}

fn push_spaces(out: &mut String, n: usize)
    ensures
        final(out)@ == old(out)@ + spaces(n as nat),
{
    let ghost start = out@;
    let mut i: usize = 0;
    while i < n
        invariant
            i <= n,
            out@ == start + spaces(i as nat),
        decreases n - i,
    {
        push_char(out, ' ');
        i += 1;
        assert(out@ =~= start + spaces(i as nat));
    }
}

/// Appends the line of `header` under the alternating style.
fn format_alternating_bullets(out: &mut String, header: &Header)
    ensures
        final(out)@ == old(out)@ + toc_line(alternating_bullet(header@.level), header@),
{
    let level = header.level();
    let k = (level - 1) % 3;
    let bullet = if k == 0 {
        "-"
    } else if k == 1 {
        "*"
    } else {
        "+"
    };
    proof {
        reveal_strlit("-");
        reveal_strlit("*");
        reveal_strlit("+");
        assert(bullet@ =~= alternating_bullet(header@.level));
    }
    format_symbols(out, header, bullet)
}

/// Appends the line of `header` marked with `bullet`.
fn format_symbols(out: &mut String, header: &Header, bullet: &str)
    ensures
        final(out)@ == old(out)@ + toc_line(bullet@, header@),
{
    let ghost start = out@;
    let level = header.level();
    let width = bullet.unicode_len();
    let mut k: usize = 1;
    while k < level
        invariant
            1 <= k <= level <= 6,
            width == bullet@.len(),
            out@ == start + spaces(((k - 1) * (width + 1)) as nat),
        decreases level - k,
    {
        push_spaces(out, width);
        push_char(out, ' ');
        proof {
            assert(((k - 1) * (width + 1)) + width + 1 == k * (width + 1)) by (nonlinear_arith);
            assert(out@ =~= start + spaces((k * (width + 1)) as nat));
        }
        k += 1;
    }
    out.append(bullet);
    push_char(out, ' ');
    let link = header.to_string();
    out.append(link.as_str());
    push_char(out, '\n');
    assert(out@ =~= start + toc_line(bullet@, header@));
}

impl<'a> Formatter<'a> {
    /// Renders the table of contents for `headers` into a `String`.
    pub fn render(&self, headers: &Vec<Header>) -> (r: String)
        ensures
            r@ == toc_text(*self, models(headers@)),
    {
        let mut s = String::new();
        let mut i: usize = 0;
        while i < headers.len()
            invariant
                i <= headers@.len(),
                s@ == toc_text(*self, models(headers@.subrange(0, i as int))),
            decreases headers@.len() - i,
        {
            let h = &headers[i];
            match self {
                Formatter::AlternatingBullets => format_alternating_bullets(&mut s, h),
                Formatter::DashBullets => format_symbols(&mut s, h, "-"),
                Formatter::PlusBullets => format_symbols(&mut s, h, "+"),
                Formatter::AsteriskBullets => format_symbols(&mut s, h, "*"),
                Formatter::Custom(bullet) => format_symbols(&mut s, h, bullet),
                Formatter::Numbers => format_symbols(&mut s, h, "1."),
            }
            proof {
                reveal_strlit("-");
                reveal_strlit("*");
                reveal_strlit("+");
                reveal_strlit("1.");
                let prefix = models(headers@.subrange(0, i + 1));
                assert(prefix.drop_last() =~= models(headers@.subrange(0, i as int)));
                assert(prefix.last() == headers@[i as int]@);
            }
            i += 1;
        }
        assert(headers@.subrange(0, headers@.len() as int) =~= headers@);
        s
    }
}

impl<'a> Format for Formatter<'a> {
    /// The UTF-8 encoding of `toc_text`.
    open spec fn toc(&self, hs: Seq<HeaderModel>) -> Seq<u8> {
        encode_utf8(toc_text(*self, hs))
    }

    fn fmt(&self, out: &mut Vec<u8>, headers: Vec<Header>) {
        let text = self.render(&headers);
        append_bytes(out, text.as_str().as_bytes());
    }
}

} // verus!
