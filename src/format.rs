//! User output templates: `{key}`, `{uri}`, `{size_bytes}`, `{size_human}`
//! and `{last_modified}` between literal text.

use vstd::prelude::*;
use crate::download::{decimal, push_decimal, str_eq};
use crate::engine::S3Object;
use crate::glob::first_index_of;
use crate::text::{chars_of, string_of};

verus! {

/// One piece of a compiled template.
#[derive(Debug)]
pub enum FormatToken {
    Literal(String),
    Key,
    Uri,
    SizeBytes,
    SizeHuman,
    LastModified,
}

pub enum TokenView {
    Literal(Seq<char>),
    Key,
    Uri,
    SizeBytes,
    SizeHuman,
    LastModified,
}

impl View for FormatToken {
    type V = TokenView;

    open spec fn view(&self) -> TokenView {
        match self {
            FormatToken::Literal(s) => TokenView::Literal(s@),
            FormatToken::Key => TokenView::Key,
            FormatToken::Uri => TokenView::Uri,
            FormatToken::SizeBytes => TokenView::SizeBytes,
            FormatToken::SizeHuman => TokenView::SizeHuman,
            FormatToken::LastModified => TokenView::LastModified,
        }
    }
}

pub open spec fn tokens_view(v: Seq<FormatToken>) -> Seq<TokenView> {
    v.map_values(|t: FormatToken| t@)
}

/// The token a placeholder name stands for.
pub open spec fn variable(v: Seq<char>) -> Option<TokenView> {
    if v == "key"@ {
        Some(TokenView::Key)
    } else if v == "uri"@ {
        Some(TokenView::Uri)
    } else if v == "size_bytes"@ {
        Some(TokenView::SizeBytes)
    } else if v == "size_human"@ {
        Some(TokenView::SizeHuman)
    } else if v == "last_modified"@ {
        Some(TokenView::LastModified)
    } else {
        None
    }
}

pub open spec fn flush(toks: Seq<TokenView>, lit: Seq<char>) -> Seq<TokenView> {
    if lit.len() > 0 {
        toks.push(TokenView::Literal(lit))
    } else {
        toks
    }
}

/// Reading template `s` from `i`, with `lit` the literal text pending and
/// `toks` the tokens so far; a placeholder runs to the next `}` or to the
/// end.
pub open spec fn format_scan(s: Seq<char>, i: int, lit: Seq<char>, toks: Seq<TokenView>) -> Result<
    Seq<TokenView>,
    Seq<char>,
>
    decreases s.len() - i,
{
    if i < 0 || i >= s.len() {
        Ok(flush(toks, lit))
    } else if s[i] == '{' {
        let (name, next) = match first_index_of(s, '}', i + 1) {
            Some(j) => (s.subrange(i + 1, j), j + 1),
            None => (s.subrange(i + 1, s.len() as int), s.len() as int),
        };
        match variable(name) {
            None => Err("unknown variable: "@ + name),
            Some(t) => if i < next <= s.len() {
                format_scan(s, next, seq![], flush(toks, lit).push(t))
            } else {
                Ok(flush(toks, lit).push(t))
            },
        }
    } else {
        format_scan(s, i + 1, lit.push(s[i]), toks)
    }
}

fn variable_token(name: &str) -> (r: Option<FormatToken>)
    ensures
        match r {
            Some(t) => variable(name@) == Some(t@),
            None => variable(name@) is None,
        },
{
    if str_eq(name, "key") {
        Some(FormatToken::Key)
    } else if str_eq(name, "uri") {
        Some(FormatToken::Uri)
    } else if str_eq(name, "size_bytes") {
        Some(FormatToken::SizeBytes)
    } else if str_eq(name, "size_human") {
        Some(FormatToken::SizeHuman)
    } else if str_eq(name, "last_modified") {
        Some(FormatToken::LastModified)
    } else {
        None
    }
}

/// Compiles a template; an unknown placeholder is an error naming it.
pub fn compile_format(format: &str) -> (r: Result<Vec<FormatToken>, String>)
    ensures
        match r {
            Ok(toks) => format_scan(format@, 0, seq![], seq![]) == Ok::<Seq<TokenView>, Seq<char>>(
                tokens_view(toks@),
            ),
            Err(msg) => format_scan(format@, 0, seq![], seq![]) == Err::<Seq<TokenView>, Seq<char>>(
                msg@,
            ),
        },
{
    let s = chars_of(format);
    let n = s.len();
    let mut tokens: Vec<FormatToken> = Vec::new();
    let mut lit = String::new();
    let mut i: usize = 0;
    assert(tokens_view(tokens@) =~= Seq::<TokenView>::empty());
    assert(lit@ =~= Seq::<char>::empty());
    while i < n
        invariant
            0 <= i <= n == s@.len(),
            s@ == format@,
            format_scan(format@, 0, seq![], seq![]) == format_scan(s@, i as int, lit@, tokens_view(tokens@)),
        decreases n - i,
    {
        if s[i] == '{' {
            let ghost lit0 = lit@;
            let ghost toks0 = tokens_view(tokens@);
            if !lit.as_str().is_empty() {
                let ghost before = tokens_view(tokens@);
                let ghost lv = lit@;
                tokens.push(FormatToken::Literal(lit));
                lit = String::new();
                assert(tokens_view(tokens@) =~= before.push(TokenView::Literal(lv)));
            }
            let mut j: usize = i + 1;
            while j < n && s[j] != '}'
                invariant
                    i < j <= n == s@.len(),
                    forall|k: int| i + 1 <= k < j ==> s@[k] != '}',
                decreases n - j,
            {
                j = j + 1;
            }
            proof {
                crate::glob::lemma_first_index(s@, '}', i + 1, j as int);
            }
            assert(lit@ =~= Seq::<char>::empty());
            assert(tokens_view(tokens@) == flush(toks0, lit0));
            let name = string_of(&s, i + 1, j);
            match variable_token(name.as_str()) {
                None => {
                    let mut msg = String::new();
                    msg.push_str("unknown variable: ");
                    msg.push_str(name.as_str());
                    return Err(msg);
                },
                Some(t) => {
                    let ghost before = tokens_view(tokens@);
                    let ghost tv = t@;
                    tokens.push(t);
                    assert(tokens_view(tokens@) =~= before.push(tv));
                },
            }
            i = if j < n { j + 1 } else { n };
        } else {
            lit.push(s[i]);
            i = i + 1;
        }
    }
    if !lit.as_str().is_empty() {
        let ghost before = tokens_view(tokens@);
        let ghost lv = lit@;
        tokens.push(FormatToken::Literal(lit));
        assert(tokens_view(tokens@) =~= before.push(TokenView::Literal(lv)));
    }
    Ok(tokens)
}

/// The text `humansize` gives for a size in bytes, in decimal units with one
/// decimal place and no space before the unit.
pub uninterp spec fn human_size(bytes: u64) -> Seq<char>;

/// Relies on `humansize::format_size` with decimal units, one decimal place
/// and no space: the text depends on the size alone.
#[verifier::external_body]
fn size_human(bytes: u64) -> (r: String)
    ensures
        r@ == human_size(bytes),
{
    humansize::format_size(
        bytes,
        humansize::FormatSizeOptions::from(humansize::DECIMAL).decimal_places(1).space_after_value(false),
    )
}

/// The decimal text of a signed number.
pub open spec fn signed_decimal(n: int) -> Seq<char> {
    if n < 0 {
        seq!['-'] + decimal((-n) as nat)
    } else {
        decimal(n as nat)
    }
}

/// What one token renders to for an object of `bucket`.
pub open spec fn token_text(t: TokenView, bucket: Seq<char>, o: S3Object) -> Seq<char> {
    match t {
        TokenView::Literal(l) => l,
        TokenView::Key => o.key@,
        TokenView::Uri => "s3://"@ + bucket + "/"@ + o.key@,
        TokenView::SizeBytes => signed_decimal(o.size as int),
        TokenView::SizeHuman => human_size(
            if o.size < 0 {
                0
            } else {
                o.size as u64
            },
        ),
        TokenView::LastModified => o.last_modified@,
    }
}

/// A whole template rendered for an object.
pub open spec fn render(tokens: Seq<TokenView>, bucket: Seq<char>, o: S3Object) -> Seq<char>
    decreases tokens.len(),
{
    if tokens.len() == 0 {
        seq![]
    } else {
        render(tokens.drop_last(), bucket, o) + token_text(tokens.last(), bucket, o)
    }
}

/// Renders a compiled template for an object of `bucket`.
pub fn format_user(bucket: &str, obj: &S3Object, tokens: &[FormatToken]) -> (r: String)
    ensures
        r@ == render(tokens_view(tokens@), bucket@, *obj),
{
    let mut r = String::new();
    let mut i: usize = 0;
    while i < tokens.len()
        invariant
            0 <= i <= tokens@.len(),
            r@ == render(tokens_view(tokens@.take(i as int)), bucket@, *obj),
        decreases tokens.len() - i,
    {
        let ghost before = r@;
        match &tokens[i] {
            FormatToken::Literal(l) => r.push_str(l.as_str()),
            FormatToken::Key => r.push_str(obj.key.as_str()),
            FormatToken::Uri => {
                r.push_str("s3://");
                r.push_str(bucket);
                r.push_str("/");
                r.push_str(obj.key.as_str());
                assert(r@ =~= before + ("s3://"@ + bucket@ + "/"@ + obj.key@));
            },
            FormatToken::SizeBytes => {
                if obj.size < 0 {
                    r.push('-');
                    let m = (0i128 - obj.size as i128) as u64;
                    push_decimal(&mut r, m);
                    assert(r@ =~= before + signed_decimal(obj.size as int));
                } else {
                    push_decimal(&mut r, obj.size as u64);
                }
            },
            FormatToken::SizeHuman => {
                let bytes: u64 = if obj.size < 0 {
                    0
                } else {
                    obj.size as u64
                };
                let h = size_human(bytes);
                r.push_str(h.as_str());
            },
            FormatToken::LastModified => r.push_str(obj.last_modified.as_str()),
        }
        proof {
            let t = tokens_view(tokens@.take(i + 1));
            assert(t.drop_last() =~= tokens_view(tokens@.take(i as int)));
            assert(t.last() == tokens@[i as int]@);
        }
        i = i + 1;
    }
    assert(tokens@.take(tokens@.len() as int) == tokens@);
    r
}

/// `s` preceded by spaces up to `width` characters.
pub open spec fn pad_left(s: Seq<char>, width: nat) -> Seq<char> {
    if s.len() < width {
        Seq::new((width - s.len()) as nat, |i: int| ' ') + s
    } else {
        s
    }
}

fn push_padded(r: &mut String, s: &str, width: usize)
    ensures
        final(r)@ == old(r)@ + pad_left(s@, width as nat),
{
    let n = chars_of(s).len();
    let mut k: usize = n;
    let ghost base = old(r)@;
    while k < width
        invariant
            n <= k <= width || (k == n && n >= width),
            n == s@.len(),
            r@ == base + Seq::new((k - n) as nat, |i: int| ' '),
        decreases width - k,
    {
        r.push(' ');
        k = k + 1;
        assert(r@ =~= base + Seq::new((k - n) as nat, |i: int| ' '));
    }
    r.push_str(s);
    if n < width {
        assert(k == width);
        assert(r@ =~= base + pad_left(s@, width as nat));
    } else {
        assert(Seq::new(0, |i: int| ' ') =~= Seq::<char>::empty());
        assert(r@ =~= base + pad_left(s@, width as nat));
    }
}

/// The default listing line: modification time and decimal size, right
/// aligned, then the key.
pub fn format_default(obj: &S3Object) -> (r: String)
    ensures
        r@ == pad_left(obj.last_modified@, 10) + "   "@ + pad_left(
            token_text(TokenView::SizeHuman, seq![], *obj),
            7,
        ) + "   "@ + obj.key@,
{
    let bytes: u64 = if obj.size < 0 {
        0
    } else {
        obj.size as u64
    };
    let size = size_human(bytes);
    let mut r = String::new();
    push_padded(&mut r, obj.last_modified.as_str(), 10);
    r.push_str("   ");
    push_padded(&mut r, size.as_str(), 7);
    r.push_str("   ");
    r.push_str(obj.key.as_str());
    r
}

/// The listing line of a prefix that is not an object.
pub fn format_prefix(prefix: &str) -> (r: String)
    ensures
        r@ == "PRE     "@ + prefix@,
{
    let mut r = String::new();
    r.push_str("PRE     ");
    r.push_str(prefix);
    r
}

} // verus!
