//! Password sources: the typed form of an argument such as `file:secret.txt`,
//! how such an argument is read, and how a source is written back as one.
use vstd::prelude::*;

use crate::decimal::{
    format_i32, in_i32, lemma_decimal_round_trip, parse_i32, spec_decimal, spec_parse_i32,
};
use crate::text::{is_first_colon, lemma_split_at, spec_split, split_first_colon, text_eq};

verus! {

/// The standard library's I/O error, carried inside [`Error::Io`].
#[verifier::external_type_specification]
#[verifier::external_body]
pub struct ExIoError(std::io::Error);

/// Why an environment variable gave no value.
#[derive(Debug, Clone, Copy, PartialEq, Eq, Structural)]
pub enum VarError {
    /// The variable is not set.
    NotPresent,
    /// The variable is set, but its value is not valid Unicode.
    NotUnicode,
}

/// Errors that can arise while reading a password argument.
#[derive(Debug)]
pub enum Error {
    /// The argument's type, the text before its first `:`, is not known.
    InvalidType(String),
    /// The environment variable could not be read.
    EnvVar(VarError),
    /// Opening or reading a file, a descriptor or the standard input failed.
    Io(std::io::Error),
    /// The text after `fd:` is not a descriptor number.
    FdLiteral(String),
}

/// What an [`Error`] says, with its texts as character sequences.
pub ghost enum ErrorView {
    InvalidType(Seq<char>),
    EnvVar(VarError),
    Io,
    FdLiteral(Seq<char>),
}

impl View for Error {
    type V = ErrorView;

    open spec fn view(&self) -> ErrorView {
        match self {
            Error::InvalidType(t) => ErrorView::InvalidType(t@),
            Error::EnvVar(e) => ErrorView::EnvVar(*e),
            Error::Io(_) => ErrorView::Io,
            Error::FdLiteral(t) => ErrorView::FdLiteral(t@),
        }
    }
}

/// Password source.
#[derive(Debug, Clone, PartialEq)]
pub enum Source {
    /// Literal password string.
    Pass(String),
    /// Environment variable, by name.
    Env(String),
    /// File, by its path as written.
    File(String),
    /// File descriptor.
    Fd(i32),
    /// Standard input.
    Stdin,
    /// Interactive prompt, with the text to show.
    Prompt(String),
}

/// A [`Source`] with its texts as character sequences.
pub ghost enum SourceView {
    Pass(Seq<char>),
    Env(Seq<char>),
    File(Seq<char>),
    Fd(int),
    Stdin,
    Prompt(Seq<char>),
}

impl View for Source {
    type V = SourceView;

    open spec fn view(&self) -> SourceView {
        match self {
            Source::Pass(p) => SourceView::Pass(p@),
            Source::Env(v) => SourceView::Env(v@),
            Source::File(p) => SourceView::File(p@),
            Source::Fd(n) => SourceView::Fd(*n as int),
            Source::Stdin => SourceView::Stdin,
            Source::Prompt(p) => SourceView::Prompt(p@),
        }
    }
}

/// Whether `v` is the view of some [`Source`]: a descriptor number fits in an `i32`.
pub open spec fn source_valid(v: SourceView) -> bool {
    match v {
        SourceView::Fd(n) => in_i32(n),
        _ => true,
    }
}

/// The prompt shown when a `prompt` argument gives no text of its own.
pub open spec fn default_prompt() -> Seq<char> {
    "Password: "@
}

/// How an argument reads: split at its first `:`, the part before it names
/// the kind of source, and the part after it, taken verbatim, is its payload.
pub open spec fn spec_parse(s: Seq<char>) -> Result<SourceView, ErrorView> {
    let (t, rest) = spec_split(s);
    match rest {
        None => if t == "stdin"@ {
            Ok(SourceView::Stdin)
        } else if t == "prompt"@ {
            Ok(SourceView::Prompt(default_prompt()))
        } else {
            Err(ErrorView::InvalidType(t))
        },
        Some(p) => if t == "pass"@ {
            Ok(SourceView::Pass(p))
        } else if t == "env"@ {
            Ok(SourceView::Env(p))
        } else if t == "file"@ {
            Ok(SourceView::File(p))
        } else if t == "fd"@ {
            match spec_parse_i32(p) {
                Some(n) => Ok(SourceView::Fd(n)),
                None => Err(ErrorView::FdLiteral(p)),
            }
        } else if t == "prompt"@ {
            Ok(SourceView::Prompt(p))
        } else {
            Err(ErrorView::InvalidType(t))
        },
    }
}

/// The argument that names the source `v`. A prompt that shows the default
/// text is written as plain `prompt`.
pub open spec fn spec_render(v: SourceView) -> Seq<char> {
    match v {
        SourceView::Pass(p) => "pass:"@ + p,
        SourceView::Env(n) => "env:"@ + n,
        SourceView::File(p) => "file:"@ + p,
        SourceView::Fd(n) => "fd:"@ + spec_decimal(n),
        SourceView::Stdin => "stdin"@,
        SourceView::Prompt(p) => if p == default_prompt() {
            "prompt"@
        } else {
            "prompt:"@ + p
        },
    }
}

/// A tag without a colon, then a colon, then any payload, splits into the
/// tag and the payload.
proof fn lemma_split_tagged(tag: Seq<char>, p: Seq<char>)
    requires
        forall|j: int| 0 <= j < tag.len() ==> tag[j] != ':',
    ensures
        spec_split(tag.push(':') + p) == (tag, Some(p)),
{
    let s = tag.push(':') + p;
    let i = tag.len() as int;
    assert(is_first_colon(s, i)) by {
        assert forall|j: int| 0 <= j < i implies s[j] != ':' by {
            assert(s[j] == tag[j]);
        }
    }
    lemma_split_at(s, i);
    assert(s.subrange(0, i) =~= tag);
    assert(s.subrange(i + 1, s.len() as int) =~= p);
}

/// A text without a colon does not split.
proof fn lemma_split_plain(s: Seq<char>)
    requires
        forall|j: int| 0 <= j < s.len() ==> s[j] != ':',
    ensures
        spec_split(s) == (s, None::<Seq<char>>),
{
}

/// Writing a source as an argument and reading that argument back gives the
/// same source.
pub proof fn lemma_render_parse(v: SourceView)
    requires
        source_valid(v),
    ensures
        spec_parse(spec_render(v)) == Ok::<SourceView, ErrorView>(v),
{
    reveal_strlit("pass:");
    reveal_strlit("pass");
    reveal_strlit("env:");
    reveal_strlit("env");
    reveal_strlit("file:");
    reveal_strlit("file");
    reveal_strlit("fd:");
    reveal_strlit("fd");
    reveal_strlit("stdin");
    reveal_strlit("prompt:");
    reveal_strlit("prompt");
    match v {
        SourceView::Pass(p) => {
            assert("pass:"@ =~= "pass"@.push(':'));
            lemma_split_tagged("pass"@, p);
        },
        SourceView::Env(p) => {
            assert("env:"@ =~= "env"@.push(':'));
            lemma_split_tagged("env"@, p);
            assert("env"@ != "pass"@);
        },
        SourceView::File(p) => {
            assert("file:"@ =~= "file"@.push(':'));
            lemma_split_tagged("file"@, p);
            assert("file"@[0] != "pass"@[0]);
            assert("file"@ != "env"@);
        },
        SourceView::Fd(n) => {
            assert("fd:"@ =~= "fd"@.push(':'));
            lemma_split_tagged("fd"@, spec_decimal(n));
            lemma_decimal_round_trip(n);
            assert("fd"@ != "pass"@);
            assert("fd"@ != "env"@);
            assert("fd"@ != "file"@);
        },
        SourceView::Stdin => {
            lemma_split_plain("stdin"@);
        },
        SourceView::Prompt(p) => {
            reveal_strlit("Password: ");
            lemma_split_plain("prompt"@);
            assert("prompt"@ != "stdin"@);
            assert("prompt:"@ =~= "prompt"@.push(':'));
            lemma_split_tagged("prompt"@, p);
            assert("prompt"@ != "pass"@);
            assert("prompt"@ != "env"@);
            assert("prompt"@ != "file"@);
            assert("prompt"@ != "fd"@);
        },
    }
}

/// Every argument that reads as a source is written back as an argument that
/// reads as that same source.
pub proof fn lemma_parse_render(s: Seq<char>)
    requires
        spec_parse(s) is Ok,
    ensures
        spec_parse(spec_render(spec_parse(s)->Ok_0)) == spec_parse(s),
{
    lemma_render_parse(spec_parse(s)->Ok_0);
}

/// An argument written in its usual form is written back letter for letter:
/// every argument that reads as a source, except the default prompt spelled
/// out as `prompt:Password: ` and a descriptor number not written in its
/// shortest decimal form.
pub proof fn lemma_parse_render_text(s: Seq<char>)
    requires
        spec_parse(s) is Ok,
        s != "prompt:"@ + default_prompt(),
        spec_parse(s)->Ok_0 is Fd ==> s == "fd:"@ + spec_decimal(spec_parse(s)->Ok_0->Fd_0),
    ensures
        spec_render(spec_parse(s)->Ok_0) == s,
{
    reveal_strlit("pass:");
    reveal_strlit("pass");
    reveal_strlit("env:");
    reveal_strlit("env");
    reveal_strlit("file:");
    reveal_strlit("file");
    reveal_strlit("prompt:");
    reveal_strlit("prompt");
    if exists|i: int| is_first_colon(s, i) {
        let i = choose|i: int| is_first_colon(s, i);
        lemma_split_at(s, i);
        let t = s.subrange(0, i);
        let p = s.subrange(i + 1, s.len() as int);
        assert(s =~= t.push(':') + p);
        assert("pass:"@ =~= "pass"@.push(':'));
        assert("env:"@ =~= "env"@.push(':'));
        assert("file:"@ =~= "file"@.push(':'));
        assert("prompt:"@ =~= "prompt"@.push(':'));
    }
}

impl Source {
    /// Reads a password argument. See the crate documentation for its forms.
    pub fn parse(s: &str) -> (r: Result<Source, Error>)
        ensures
            match r {
                Ok(src) => spec_parse(s@) == Ok::<SourceView, ErrorView>(src@),
                Err(e) => spec_parse(s@) == Err::<SourceView, ErrorView>(e@),
            },
    {
        let (t, rest) = split_first_colon(s);
        match rest {
            None => {
                if text_eq(t, "stdin") {
                    Ok(Source::Stdin)
                } else if text_eq(t, "prompt") {
                    Ok(Source::Prompt("Password: ".to_owned()))
                } else {
                    Err(Error::InvalidType(t.to_owned()))
                }
            },
            Some(p) => {
                if text_eq(t, "pass") {
                    Ok(Source::Pass(p.to_owned()))
                } else if text_eq(t, "env") {
                    Ok(Source::Env(p.to_owned()))
                } else if text_eq(t, "file") {
                    Ok(Source::File(p.to_owned()))
                } else if text_eq(t, "fd") {
                    match parse_i32(p) {
                        Some(n) => Ok(Source::Fd(n)),
                        None => Err(Error::FdLiteral(p.to_owned())),
                    }
                } else if text_eq(t, "prompt") {
                    Ok(Source::Prompt(p.to_owned()))
                } else {
                    Err(Error::InvalidType(t.to_owned()))
                }
            },
        }
    }

    /// The argument that names this source; [`Source::parse`] reads it back
    /// as this same source.
    pub fn to_arg_string(&self) -> (r: String)
        ensures
            r@ == spec_render(self@),
    {
        match self {
            Source::Pass(p) => "pass:".to_owned().concat(p.as_str()),
            Source::Env(n) => "env:".to_owned().concat(n.as_str()),
            Source::File(p) => "file:".to_owned().concat(p.as_str()),
            Source::Fd(n) => {
                let digits = format_i32(*n);
                "fd:".to_owned().concat(digits.as_str())
            },
            Source::Stdin => "stdin".to_owned(),
            Source::Prompt(p) => {
                if text_eq(p.as_str(), "Password: ") {
                    "prompt".to_owned()
                } else {
                    "prompt:".to_owned().concat(p.as_str())
                }
            },
        }
    }
}

impl std::str::FromStr for Source {
    type Err = Error;

    fn from_str(s: &str) -> (r: Result<Source, Error>)
        ensures
            match r {
                Ok(src) => spec_parse(s@) == Ok::<SourceView, ErrorView>(src@),
                Err(e) => spec_parse(s@) == Err::<SourceView, ErrorView>(e@),
            },
    {
        Source::parse(s)
    }
}

} // verus!
