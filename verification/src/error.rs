//! Error definitions and associated conversions.

use crate::config::warning_message_chars;
use crate::config::MergeWarning;
use crate::text::join_components;
use crate::text::join_seqs;
use crate::text::lex_leq_fn;
use crate::text::seq_views;
use crate::text::sort_strings;
use vstd::prelude::*;
use vstd::string::StringExecFns;

verus! {

/// Everything that can go wrong while compiling a configuration.
#[derive(Debug)]
pub enum ConfpilerError {
    /// The external loader failed for a source: its identifier and the
    /// loader's own description of the failure.
    SourceError(String, String),
    /// A config source was specified more than once.
    DuplicateConfig(String),
    /// Flattening a single source produced the same key twice.
    DuplicateKey(String),
    /// No config sources were specified at all.
    NoConfigSpecified,
    /// A source contains an array that itself contains a table or an array.
    UnsupportedArray(String),
    /// A wrapper for treating merge warnings as errors.
    Warnings(Vec<MergeWarning>),
}

/// The warnings' messages, unindented.
pub open spec fn warning_texts(ws: Seq<MergeWarning>) -> Seq<Seq<char>> {
    ws.map_values(|w: MergeWarning| warning_message_chars(w))
}

/// The rendered description of an error: for a source error, the loader's
/// own description; for warnings treated as an error, one message per line
/// in lexicographic order, so that output is reproducible.
pub open spec fn error_message_chars(e: ConfpilerError) -> Seq<char> {
    match e {
        ConfpilerError::SourceError(id, cause) => cause@,
        ConfpilerError::DuplicateConfig(c) => "the config \""@ + c@ + "\" was specified twice"@,
        ConfpilerError::DuplicateKey(k) => "the key \""@ + k@
            + "\" would be overwritten by another value in the same configuration file"@,
        ConfpilerError::NoConfigSpecified => "must specify at least one config path via `builder.add_config`"@,
        ConfpilerError::UnsupportedArray(k) => "the array at \""@ + k@
            + "\" is unsupported (arrays must not contain arrays or maps to be considered valid)"@,
        ConfpilerError::Warnings(ws) => join_seqs(warning_texts(ws@).sort_by(lex_leq_fn()), "\n"@),
    }
}

impl ConfpilerError {
    /// The human-readable description of the error.
    pub fn message(&self) -> (r: String)
        ensures
            r@ == error_message_chars(*self),
    {
        match self {
            ConfpilerError::SourceError(id, cause) => cause.clone(),
            ConfpilerError::DuplicateConfig(c) => {
                let mut r = "the config \"".to_owned();
                r.append(c.as_str());
                r.append("\" was specified twice");
                r
            },
            ConfpilerError::DuplicateKey(k) => {
                let mut r = "the key \"".to_owned();
                r.append(k.as_str());
                r.append(
                    "\" would be overwritten by another value in the same configuration file",
                );
                r
            },
            ConfpilerError::NoConfigSpecified => {
                "must specify at least one config path via `builder.add_config`".to_owned()
            },
            ConfpilerError::UnsupportedArray(k) => {
                let mut r = "the array at \"".to_owned();
                r.append(k.as_str());
                r.append(
                    "\" is unsupported (arrays must not contain arrays or maps to be considered valid)",
                );
                r
            },
            ConfpilerError::Warnings(ws) => {
                let ghost target = warning_texts(ws@);
                let mut texts: Vec<String> = Vec::new();
                let mut i: usize = 0;
                proof {
                    assert(seq_views(texts@) =~= target.take(0));
                }
                while i < ws.len()
                    invariant
                        i <= ws@.len(),
                        target == warning_texts(ws@),
                        target.len() == ws@.len(),
                        seq_views(texts@) == target.take(i as int),
                    decreases ws@.len() - i,
                {
                    let m = ws[i].message();
                    let ghost pre_texts = texts@;
                    let ghost m_v = m@;
                    texts.push(m);
                    proof {
                        assert(target[i as int] == warning_message_chars(ws@[i as int]));
                        assert(pre_texts.len() == i as int) by {
                            assert(seq_views(pre_texts).len() == pre_texts.len());
                        }
                        assert(seq_views(texts@) =~= target.take(i as int + 1)) by {
                            assert(forall|j: int| 0 <= j < i ==> texts@[j] == pre_texts[j]);
                            assert(texts@[i as int]@ == m_v);
                        }
                    }
                    i = i + 1;
                }
                proof {
                    assert(target.take(ws@.len() as int) =~= target);
                }
                let sorted = sort_strings(&texts);
                let r = join_components(&sorted, "\n");
                proof {
                    crate::config::lemma_join_sorted(sorted@, target);
                }
                r
            },
        }
    }
}

impl From<Vec<MergeWarning>> for ConfpilerError {
    /// Wraps merge warnings for the caller who treats them as fatal.
    fn from(value: Vec<MergeWarning>) -> (r: ConfpilerError) {
        ConfpilerError::Warnings(value)
    }
}

impl vstd::std_specs::convert::FromSpecImpl<Vec<MergeWarning>> for ConfpilerError {
    open spec fn obeys_from_spec() -> bool {
        true
    }

    open spec fn from_spec(value: Vec<MergeWarning>) -> ConfpilerError {
        ConfpilerError::Warnings(value)
    }
}

} // verus!
