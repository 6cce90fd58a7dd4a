//! The source-location resolver: decoding the debug metadata attached to an
//! instruction into a concrete (file path, line, column) triple.
//!
//! Absence of metadata at any stage of the location -> scope -> file chain,
//! and a file descriptor whose directory and file name are both empty, mean
//! "location unknown": a normal outcome for optimized or stripped code,
//! reported as `None` and never as a zeroed or sentinel value.

use crate::ir::DebugLocation;
use crate::ir::DebugScope;
use crate::ir::FileDescriptor;
use crate::ir::Instruction;
use crate::text::dec_rep;
use crate::text::u64_to_dec;
use vstd::prelude::*;
use vstd::string::StrSliceExecFns;
use vstd::string::StringExecFns;

verus! {

/// The mathematical value of a `SourceLocation`.
pub struct LocationModel {
    pub filepath: Seq<char>,
    pub line: u32,
    pub column: u32,
}

/// A concrete source position: a file path, a line, and a column (0 meaning
/// "unknown column", a valid value by debug-info convention). Immutable once
/// constructed, and produced only from present, non-empty debug metadata.
#[derive(Clone, Debug, PartialEq, Eq)]
pub struct SourceLocation {
    filepath: String,
    line: u32,
    column: u32,
}

impl View for SourceLocation {
    type V = LocationModel;

    closed spec fn view(&self) -> LocationModel {
        LocationModel { filepath: self.filepath@, line: self.line, column: self.column }
    }
}

/// Unix-style join of a directory and a file name: the file name alone when
/// the directory is empty or the file name is absolute, otherwise the two
/// with exactly one separator between them.
pub open spec fn join_path_spec(dir: Seq<char>, file: Seq<char>) -> Seq<char> {
    if dir.len() == 0 {
        file
    } else if file.len() > 0 && file[0] == '/' {
        file
    } else if dir[dir.len() - 1] == '/' {
        dir + file
    } else {
        dir + seq!['/'] + file
    }
}

/// What the resolver returns for an instruction: a location exactly when the
/// debug location, its scope and the scope's file are all present and the
/// file's directory and name are not both empty.
pub open spec fn resolve_spec(inst: Instruction) -> Option<LocationModel> {
    match inst.debug_loc {
        None => None,
        Some(dl) => match dl.scope {
            None => None,
            Some(sc) => match sc.file {
                None => None,
                Some(fd) => if fd.filename@.len() == 0 && fd.directory@.len() == 0 {
                    None
                } else {
                    Some(
                        LocationModel {
                            filepath: join_path_spec(fd.directory@, fd.filename@),
                            line: dl.line,
                            column: dl.column,
                        },
                    )
                },
            },
        },
    }
}

/// Whether an instruction carries complete, usable debug metadata: the whole
/// location -> scope -> file chain present, and a path that is not empty.
pub open spec fn metadata_complete(inst: Instruction) -> bool {
    match inst.debug_loc {
        None => false,
        Some(dl) => match dl.scope {
            None => false,
            Some(sc) => match sc.file {
                None => false,
                Some(fd) => fd.filename@.len() > 0 || fd.directory@.len() > 0,
            },
        },
    }
}

/// A location as the report prints it: `<path>:<line>:<column>`.
pub open spec fn render_loc_spec(l: LocationModel) -> Seq<char> {
    l.filepath + ":"@ + dec_rep(l.line as nat) + ":"@ + dec_rep(l.column as nat)
}

/// The views of a sequence of locations.
pub open spec fn loc_views(v: Seq<SourceLocation>) -> Seq<LocationModel> {
    v.map_values(|l: SourceLocation| l@)
}

/// Each location of a sequence, rendered.
pub open spec fn rendered_locs(locs: Seq<LocationModel>) -> Seq<Seq<char>> {
    locs.map_values(|l: LocationModel| render_loc_spec(l))
}

fn join_path(dir: &str, file: &str) -> (r: String)
    ensures
        r@ == join_path_spec(dir@, file@),
{
    let dl = dir.unicode_len();
    let fl = file.unicode_len();
    if dl == 0 {
        file.to_owned()
    } else if fl > 0 && file.get_char(0) == '/' {
        file.to_owned()
    } else if dir.get_char(dl - 1) == '/' {
        let mut s = dir.to_owned();
        s.append(file);
        s
    } else {
        let mut s = dir.to_owned();
        s.append("/");
        s.append(file);
        proof {
            reveal_strlit("/");
            assert("/"@ =~= seq!['/']);
            assert(s@ =~= join_path_spec(dir@, file@));
        }
        s
    }
}

impl SourceLocation {
    /// Decode the debug metadata attached to `inst`. Missing metadata at any
    /// stage yields `None`; nothing here panics or errors.
    pub fn from_instruction(inst: &Instruction) -> (r: Option<SourceLocation>)
        ensures
            match r {
                Some(loc) => resolve_spec(*inst) == Some(loc@),
                None => resolve_spec(*inst) is None,
            },
    {
        match &inst.debug_loc {
            None => None,
            Some(dl) => match &dl.scope {
                None => None,
                Some(sc) => match &sc.file {
                    None => None,
                    Some(fd) => {
                        if fd.filename.as_str().unicode_len() == 0 && fd.directory.as_str().unicode_len() == 0 {
                            None
                        } else {
                            Some(
                                SourceLocation {
                                    filepath: join_path(fd.directory.as_str(), fd.filename.as_str()),
                                    line: dl.line,
                                    column: dl.column,
                                },
                            )
                        }
                    },
                },
            },
        }
    }

    /// The location rendered as `<path>:<line>:<column>`.
    pub fn render(&self) -> (r: String)
        ensures
            r@ == render_loc_spec(self@),
    {
        let mut s = self.filepath.clone();
        s.append(":");
        let line_s = u64_to_dec(self.line as u64);
        s.append(line_s.as_str());
        s.append(":");
        let col_s = u64_to_dec(self.column as u64);
        s.append(col_s.as_str());
        proof {
            assert(s@ =~= render_loc_spec(self@));
        }
        s
    }

    /// The file path of this location.
    pub fn filepath(&self) -> (r: &str)
        ensures
            r@ == self@.filepath,
    {
        self.filepath.as_str()
    }

    /// The 1-based source line.
    pub fn line(&self) -> (r: u32)
        ensures
            r == self@.line,
    {
        self.line
    }

    /// The source column, 0 meaning "unknown column".
    pub fn column(&self) -> (r: u32)
        ensures
            r == self@.column,
    {
        self.column
    }
}

/// Law: for an instruction with complete, non-empty debug metadata, the
/// resolver returns a location whose path is the join of directory and file
/// name when the directory is non-empty, else the file name alone, and whose
/// line and column are the debug location's own.
pub proof fn lemma_resolve_complete(
    inst: Instruction,
    dl: DebugLocation,
    sc: DebugScope,
    fd: FileDescriptor,
)
    requires
        inst.debug_loc == Some(dl),
        dl.scope == Some(sc),
        sc.file == Some(fd),
        fd.filename@.len() > 0 || fd.directory@.len() > 0,
    ensures
        resolve_spec(inst) == Some(
            LocationModel {
                filepath: join_path_spec(fd.directory@, fd.filename@),
                line: dl.line,
                column: dl.column,
            },
        ),
        fd.directory@.len() == 0 ==> resolve_spec(inst) == Some(
            LocationModel { filepath: fd.filename@, line: dl.line, column: dl.column },
        ),
{
}

/// Law: for an instruction lacking debug metadata at any stage of the
/// location -> scope -> file chain, or whose file descriptor holds no path
/// information at all, the resolver returns nothing.
pub proof fn lemma_resolve_missing(inst: Instruction)
    requires
        !metadata_complete(inst),
    ensures
        resolve_spec(inst) is None,
{
}

/// Law: the resolver never returns a location with an empty path.
pub proof fn lemma_resolve_path_nonempty(inst: Instruction)
    ensures
        match resolve_spec(inst) {
            Some(l) => l.filepath.len() > 0,
            None => true,
        },
{
}

} // verus!
