//! The asset store's files, sorted by kind, and numbers written as text.
use crate::num::{Dec, Q};
use crate::path::{extension, extension_of};
use crate::text::{chars_eq, chars_of, dec_of, parse_dec};
use vstd::prelude::*;

verus! {

/// How a file of the asset store is handled.
#[derive(Clone, Copy, Debug, PartialEq, Eq, Structural)]
pub enum FileKind {
    /// Encoded texture (`.tex`), decoded before compiling.
    Texture,
    /// JSON text (`.json`): the scene and model documents.
    Json,
    /// Anything else, kept as bytes (sounds among them).
    Other,
}

pub open spec fn kind_of(p: Seq<char>) -> FileKind {
    match extension(p) {
        Some(e) => if e == seq!['t', 'e', 'x'] {
            FileKind::Texture
        } else if e == seq!['j', 's', 'o', 'n'] {
            FileKind::Json
        } else {
            FileKind::Other
        },
        None => FileKind::Other,
    }
}

/// The kind of the file at `path`, by its extension.
pub fn file_kind(path: &str) -> (r: FileKind)
    ensures
        r == kind_of(path@),
{
    let p = chars_of(path);
    match extension_of(&p) {
        None => FileKind::Other,
        Some(e) => {
            let tex = vec!['t', 'e', 'x'];
            let json = vec!['j', 's', 'o', 'n'];
            assert(tex@ =~= seq!['t', 'e', 'x']);
            assert(json@ =~= seq!['j', 's', 'o', 'n']);
            if chars_eq(&e, &tex) {
                FileKind::Texture
            } else if chars_eq(&e, &json) {
                FileKind::Json
            } else {
                FileKind::Other
            }
        },
    }
}

/// The number a decimal literal spells (see `dec_text`), where a `Dec` can
/// hold it.
pub fn parse_number(s: &str) -> (r: Option<Dec>)
    ensures
        match r {
            Some(d) => dec_of(s@) == Some(d@),
            None => dec_of(s@) is None,
        },
{
    let cs = chars_of(s);
    parse_dec(&cs)
}

} // verus!
