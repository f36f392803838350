//! The error kinds a run can produce, and their mathematical models.

use vstd::prelude::*;

verus! {

/// How a snippet document fails to have the required `{key: ..., value: ...}`
/// shape.
#[derive(Debug, Clone, Copy, PartialEq, Eq, Structural)]
pub enum SnipFault {
    /// The document is not a mapping.
    NotMapping,
    /// The mapping has no `key` entry whose value is a string.
    KeyMissing,
    /// The `key` entry is the empty string.
    KeyEmpty,
    /// The mapping has no `value` entry.
    ValueMissing,
}

/// An error of this library. A parse failure carries the message the
/// YAML scanner reported; the other variants carry the data that caused
/// them.
#[derive(Debug, PartialEq)]
pub enum Error {
    /// The YAML text of an input or snippet source could not be parsed.
    Parse(String),
    /// A snippet document is not shaped as `{key: string, value: any}`.
    MalformedSnippet(SnipFault),
    /// A placeholder references a key absent from the registry.
    UnresolvedSnippet(String),
    /// A placeholder expansion re-entered a key already being expanded:
    /// the resolution trail so far, then the re-entered key.
    CircularReference(Vec<String>, String),
    /// Input and output disagree about being a directory; the flag records
    /// whether the input is one.
    ModeMismatch(bool),
}

/// The mathematical shape of an [`Error`].
pub enum ErrorModel {
    Parse(Seq<char>),
    MalformedSnippet(SnipFault),
    UnresolvedSnippet(Seq<char>),
    CircularReference(Seq<Seq<char>>, Seq<char>),
    ModeMismatch(bool),
}

/// The views of a sequence of strings, elementwise.
pub open spec fn strs_of(s: Seq<String>) -> Seq<Seq<char>> {
    s.map_values(|x: String| x@)
}

/// The model of an error.
pub open spec fn error_model(e: Error) -> ErrorModel {
    match e {
        Error::Parse(m) => ErrorModel::Parse(m@),
        Error::MalformedSnippet(f) => ErrorModel::MalformedSnippet(f),
        Error::UnresolvedSnippet(k) => ErrorModel::UnresolvedSnippet(k@),
        Error::CircularReference(t, k) => ErrorModel::CircularReference(strs_of(t@), k@),
        Error::ModeMismatch(d) => ErrorModel::ModeMismatch(d),
    }
}

/// A key's characters with every quotation mark and backslash preceded
/// by a backslash, as a debug rendering shows them.
pub open spec fn escaped(k: Seq<char>) -> Seq<char>
    decreases k.len(),
{
    if k.len() == 0 {
        Seq::empty()
    } else if k.last() == '"' || k.last() == '\\' {
        escaped(k.drop_last()) + seq!['\\', k.last()]
    } else {
        escaped(k.drop_last()) + seq![k.last()]
    }
}

/// A snippet key in quotation marks, its contents escaped.
pub open spec fn quoted(k: Seq<char>) -> Seq<char> {
    "\""@ + escaped(k) + "\""@
}

/// A trail's keys, each quoted, joined with commas.
pub open spec fn trail_text(t: Seq<Seq<char>>) -> Seq<char>
    decreases t.len(),
{
    if t.len() == 0 {
        Seq::empty()
    } else if t.len() == 1 {
        quoted(t[0])
    } else {
        trail_text(t.drop_last()) + ", "@ + quoted(t.last())
    }
}

/// The message that an error is reported with.
pub open spec fn message_of(e: ErrorModel) -> Seq<char> {
    match e {
        ErrorModel::Parse(m) => m,
        ErrorModel::MalformedSnippet(f) => match f {
            SnipFault::NotMapping => "Yaml snip is not a hash."@,
            SnipFault::KeyMissing => "Yaml snip doesn't have a string key."@,
            SnipFault::KeyEmpty => "Yaml snip has an empty key."@,
            SnipFault::ValueMissing => "Yaml snip doesn't have a value."@,
        },
        ErrorModel::UnresolvedSnippet(k) => "No snippet for SNIPPET_"@ + k,
        ErrorModel::CircularReference(t, k) => "Circular replacement: ["@ + trail_text(t)
            + "] -> "@ + k,
        ErrorModel::ModeMismatch(d) => if d {
            "If input is a directory, output must also be a directory."@
        } else {
            "If input is a file, output must also be a file."@
        },
    }
}

/// Appends one key to the text, quoted, with quotation marks and
/// backslashes inside it escaped.
#[verifier::loop_isolation(false)]
fn append_quoted(out: &mut String, k: &String)
    ensures
        final(out)@ == old(out)@ + quoted(k@),
{
    out.append("\"");
    let ghost base = out@;
    let klen = k.as_str().unicode_len();
    let mut i: usize = 0;
    while i < klen
        invariant
            i <= klen,
            out@ == base + escaped(k@.subrange(0, i as int)),
        decreases klen - i,
    {
        let ghost done = k@.subrange(0, i as int);
        let c = k.as_str().get_char(i);
        if c == '"' || c == '\\' {
            out.append("\\");
        }
        let piece = k.as_str().substring_char(i, i + 1);
        out.append(piece);
        proof {
            reveal_strlit("\\");
            let now = k@.subrange(0, i + 1);
            assert(now.drop_last() =~= done);
            assert(now.last() == k@[i as int]);
            assert(piece@ =~= seq![k@[i as int]]);
            if c == '"' || c == '\\' {
                assert("\\"@ + piece@ =~= seq!['\\', k@[i as int]]);
            }
            assert(out@ =~= base + escaped(now));
        }
        i = i + 1;
    }
    proof {
        assert(k@.subrange(0, k@.len() as int) =~= k@);
    }
    out.append("\"");
    proof {
        assert(out@ =~= old(out)@ + quoted(k@));
    }
}

impl Error {
    /// The message this error is reported with.
    #[verifier::loop_isolation(false)]
    pub fn message(&self) -> (r: String)
        ensures
            r@ == message_of(error_model(*self)),
    {
        match self {
            Error::Parse(m) => m.clone(),
            Error::MalformedSnippet(f) => match f {
                SnipFault::NotMapping => String::from_str("Yaml snip is not a hash."),
                SnipFault::KeyMissing => String::from_str("Yaml snip doesn't have a string key."),
                SnipFault::KeyEmpty => String::from_str("Yaml snip has an empty key."),
                SnipFault::ValueMissing => String::from_str("Yaml snip doesn't have a value."),
            },
            Error::UnresolvedSnippet(k) => {
                let mut out = String::from_str("No snippet for SNIPPET_");
                out.append(k.as_str());
                out
            },
            Error::CircularReference(t, k) => {
                let ghost tm = strs_of(t@);
                let mut out = String::from_str("Circular replacement: [");
                let ghost head = out@;
                let mut i: usize = 0;
                while i < t.len()
                    invariant
                        i <= t@.len(),
                        out@ == head + trail_text(tm.subrange(0, i as int)),
                    decreases t@.len() - i,
                {
                    let ghost done = tm.subrange(0, i as int);
                    if i > 0 {
                        out.append(", ");
                    }
                    append_quoted(&mut out, &t[i]);
                    proof {
                        let now = tm.subrange(0, i + 1);
                        assert(now.drop_last() =~= done);
                        assert(now.last() == tm[i as int]);
                        assert(tm[i as int] == t@[i as int]@);
                        if i == 0 {
                            assert(trail_text(Seq::<Seq<char>>::empty())
                                =~= Seq::<char>::empty());
                            assert(head + Seq::<char>::empty() =~= head);
                            assert(out@ =~= head + trail_text(now));
                        } else {
                            assert(out@ =~= head + trail_text(now));
                        }
                    }
                    i = i + 1;
                }
                proof {
                    assert(tm.subrange(0, t@.len() as int) =~= tm);
                }
                out.append("] -> ");
                out.append(k.as_str());
                out
            },
            Error::ModeMismatch(d) => {
                if *d {
                    String::from_str("If input is a directory, output must also be a directory.")
                } else {
                    String::from_str("If input is a file, output must also be a file.")
                }
            },
        }
    }
}

} // verus!
