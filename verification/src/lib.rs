//! Reading and editing the values of NixOS configuration files.
//!
//! The file is parsed into its lossless syntax tree; reads return the text
//! of the nodes found, and edits change the tree and print it again, so
//! that everything not edited keeps its text.
use vstd::prelude::*;
use crate::read::{readvalue, readvalue_spec, sview, try_readvalue, ReadError};
use crate::write::WriteError;

pub mod attrmap;
pub mod laws;
pub mod parse;
pub mod read;
pub mod strings;
pub mod syntax;
pub mod tree;
pub mod write;

verus! {

/// A part of an error message; the highlighted parts name the file, the
/// attribute or the cause.
pub struct Piece {
    pub text: String,
    pub highlight: bool,
}

/// The parts of a message as plain values.
pub open spec fn piece_views(v: Seq<Piece>) -> Seq<(Seq<char>, bool)> {
    v.map_values(|p: Piece| (p.text@, p.highlight))
}

fn piece(text: &str, highlight: bool) -> (p: Piece)
    ensures
        p.text@ == text@,
        p.highlight == highlight,
{
    Piece { text: String::from_str(text), highlight }
}

/// The value text of attribute `attr` in the Nix text `f`, as the command
/// prints it.
pub fn printread(f: &str, attr: &str) -> (r: Result<String, ReadError>)
    requires
        readvalue_spec(f@, attr@) is Some,
    ensures
        readvalue_spec(f@, attr@) == Some(sview(r)),
{
    match readvalue(f, attr) {
        Ok(x) => Ok(x),
        Err(e) => Err(e),
    }
}

/// `printread` where it is defined, `None` elsewhere.
pub fn try_printread(f: &str, attr: &str) -> (r: Option<Result<String, ReadError>>)
    ensures
        match r {
            Some(x) => readvalue_spec(f@, attr@) == Some(sview(x)),
            None => readvalue_spec(f@, attr@) is None,
        },
{
    match try_readvalue(f, attr) {
        Some(_) => Some(printread(f, attr)),
        None => None,
    }
}

/// The message for a file that cannot be parsed.
pub open spec fn parse_error_message(file: Seq<char>) -> Seq<(Seq<char>, bool)> {
    seq![("failed to parse '"@, false), (file, true), ("' as a nix configuration file"@, false)]
}

/// The message for a failed write, edit or removal of attribute `attr` of
/// `file`.
pub open spec fn writeerr_message(e: WriteError, file: Seq<char>, attr: Seq<char>) -> Seq<(Seq<char>, bool)> {
    match e {
        WriteError::ParseError => parse_error_message(file),
        WriteError::NoAttr => seq![
            ("cannot dereference '"@, false),
            (attr, true),
            ("' : "@, false),
            ("No such attribute"@, true),
        ],
        WriteError::ArrayError => seq![
            ("cannot add an element to '"@, false),
            (attr, true),
            ("' : "@, false),
            ("Is this value an array?"@, true),
        ],
    }
}

/// The message the command prints for a failed write, edit or removal:
/// as `writeerr_message`, but a missing attribute is reported as one that
/// cannot be modified.
pub open spec fn command_writeerr_message(e: WriteError, file: Seq<char>, attr: Seq<char>) -> Seq<(Seq<char>, bool)> {
    match e {
        WriteError::NoAttr => seq![
            ("cannot modify '"@, false),
            (attr, true),
            ("' : "@, false),
            ("No such attribute"@, true),
        ],
        _ => writeerr_message(e, file, attr),
    }
}

/// The message for a failed read of attribute `attr` of `file`.
pub open spec fn readerr_message(e: ReadError, file: Seq<char>, attr: Seq<char>) -> Seq<(Seq<char>, bool)> {
    match e {
        ReadError::ParseError => parse_error_message(file),
        ReadError::NoAttr => seq![
            ("cannot read attribute '"@, false),
            (attr, true),
            ("' in '"@, false),
            (file, true),
            ("' : "@, false),
            ("No attribute found"@, true),
        ],
        ReadError::ArrayError => seq![
            ("cannot read array '"@, false),
            (attr, true),
            ("' : "@, false),
            ("Is this value an array?"@, true),
        ],
    }
}

/// The message for a file that does not exist.
pub open spec fn nofileerr_message(file: Seq<char>) -> Seq<(Seq<char>, bool)> {
    seq![("reading '"@, false), (file, true), ("': "@, false), ("No such file"@, true)]
}

fn parse_error_pieces(file: &str) -> (m: Vec<Piece>)
    ensures
        piece_views(m@) == parse_error_message(file@),
{
    let mut m: Vec<Piece> = Vec::new();
    m.push(piece("failed to parse '", false));
    m.push(piece(file, true));
    m.push(piece("' as a nix configuration file", false));
    proof {
        assert(piece_views(m@) =~= parse_error_message(file@));
    }
    m
}

/// The error message for a failed write, edit or removal of attribute
/// `attr` in `file`.
pub fn writeerr(e: WriteError, file: &str, attr: &str) -> (m: Vec<Piece>)
    ensures
        piece_views(m@) == writeerr_message(e, file@, attr@),
{
    match e {
        WriteError::ParseError => parse_error_pieces(file),
        WriteError::NoAttr => {
            let mut m: Vec<Piece> = Vec::new();
            m.push(piece("cannot dereference '", false));
            m.push(piece(attr, true));
            m.push(piece("' : ", false));
            m.push(piece("No such attribute", true));
            proof {
                assert(piece_views(m@) =~= writeerr_message(e, file@, attr@));
            }
            m
        },
        WriteError::ArrayError => {
            let mut m: Vec<Piece> = Vec::new();
            m.push(piece("cannot add an element to '", false));
            m.push(piece(attr, true));
            m.push(piece("' : ", false));
            m.push(piece("Is this value an array?", true));
            proof {
                assert(piece_views(m@) =~= writeerr_message(e, file@, attr@));
            }
            m
        },
    }
}

/// The error message the command prints for a failed write, edit or
/// removal of attribute `attr` in `file`.
pub fn command_writeerr(e: WriteError, file: &str, attr: &str) -> (m: Vec<Piece>)
    ensures
        piece_views(m@) == command_writeerr_message(e, file@, attr@),
{
    match e {
        WriteError::NoAttr => {
            let mut m: Vec<Piece> = Vec::new();
            m.push(piece("cannot modify '", false));
            m.push(piece(attr, true));
            m.push(piece("' : ", false));
            m.push(piece("No such attribute", true));
            proof {
                assert(piece_views(m@) =~= command_writeerr_message(e, file@, attr@));
            }
            m
        },
        _ => writeerr(e, file, attr),
    }
}

/// The error message for a failed read of attribute `attr` in `file`.
pub fn readerr(e: ReadError, file: &str, attr: &str) -> (m: Vec<Piece>)
    ensures
        piece_views(m@) == readerr_message(e, file@, attr@),
{
    match e {
        ReadError::ParseError => parse_error_pieces(file),
        ReadError::NoAttr => {
            let mut m: Vec<Piece> = Vec::new();
            m.push(piece("cannot read attribute '", false));
            m.push(piece(attr, true));
            m.push(piece("' in '", false));
            m.push(piece(file, true));
            m.push(piece("' : ", false));
            m.push(piece("No attribute found", true));
            proof {
                assert(piece_views(m@) =~= readerr_message(e, file@, attr@));
            }
            m
        },
        ReadError::ArrayError => {
            let mut m: Vec<Piece> = Vec::new();
            m.push(piece("cannot read array '", false));
            m.push(piece(attr, true));
            m.push(piece("' : ", false));
            m.push(piece("Is this value an array?", true));
            proof {
                assert(piece_views(m@) =~= readerr_message(e, file@, attr@));
            }
            m
        },
    }
}

/// The error message for a file that does not exist.
pub fn nofileerr(file: &str) -> (m: Vec<Piece>)
    ensures
        piece_views(m@) == nofileerr_message(file@),
{
    let mut m: Vec<Piece> = Vec::new();
    m.push(piece("reading '", false));
    m.push(piece(file, true));
    m.push(piece("': ", false));
    m.push(piece("No such file", true));
    proof {
        assert(piece_views(m@) =~= nofileerr_message(file@));
    }
    m
}

} // verus!
