//! Conflict markers in file contents: writing them around the sides of a
//! conflict, finding them, and reading the regions back.

use vstd::prelude::*;
use vstd::slice::{slice_subrange, slice_to_vec};
use crate::blob::opt_view;
use crate::ignore_rules::{bytes_contain, bytes_start_with, contains, occurs_at, starts_with};

verus! {

/// `<<<<<<<`
pub const CONFLICT_MARKER_START: [u8; 7] = [60, 60, 60, 60, 60, 60, 60];

/// `|||||||`
pub const CONFLICT_MARKER_BASE: [u8; 7] = [124, 124, 124, 124, 124, 124, 124];

/// `=======`
pub const CONFLICT_MARKER_SEPARATOR: [u8; 7] = [61, 61, 61, 61, 61, 61, 61];

/// `>>>>>>>`
pub const CONFLICT_MARKER_END: [u8; 7] = [62, 62, 62, 62, 62, 62, 62];

/// ` BASE`
pub const BASE_LABEL: [u8; 5] = [32, 66, 65, 83, 69];

/// The line feed
pub const NEWLINE: u8 = 10;

/// The carriage return
pub const CARRIAGE_RETURN: u8 = 13;

/// The space
pub const SPACE: u8 = 32;

/// One side of a conflict as it is written: the text, ended by a newline
/// unless it is empty or ends in one.
pub open spec fn with_newline(text: Seq<u8>) -> Seq<u8> {
    if text.len() > 0 && text.last() != NEWLINE {
        text.push(NEWLINE)
    } else {
        text
    }
}

/// The base side as it is written, with its marker line; nothing where
/// there is no base.
pub open spec fn base_part(base: Option<Seq<u8>>) -> Seq<u8> {
    match base {
        Some(text) => CONFLICT_MARKER_BASE@ + BASE_LABEL@ + seq![NEWLINE] + with_newline(text),
        None => Seq::empty(),
    }
}

/// A whole file as one conflict: the start marker with our label, our side,
/// the base side if there is one, the separator, their side, and the end
/// marker with their label.
pub open spec fn conflict_text(
    base: Option<Seq<u8>>,
    ours: Seq<u8>,
    theirs: Seq<u8>,
    ours_label: Seq<u8>,
    theirs_label: Seq<u8>,
) -> Seq<u8> {
    CONFLICT_MARKER_START@ + seq![SPACE] + ours_label + seq![NEWLINE] + with_newline(ours) + base_part(
        base,
    ) + CONFLICT_MARKER_SEPARATOR@ + seq![NEWLINE] + with_newline(theirs) + CONFLICT_MARKER_END@
        + seq![SPACE] + theirs_label + seq![NEWLINE]
}

/// The contents hold a start marker and an end marker.
pub open spec fn marked(content: Seq<u8>) -> bool {
    contains(content, CONFLICT_MARKER_START@) && contains(content, CONFLICT_MARKER_END@)
}

/// The number of start markers from `i` on, counted from left to right
/// without overlap.
pub open spec fn markers_from(content: Seq<u8>, i: int) -> nat
    decreases content.len() - i,
{
    if i < 0 || i + 7 > content.len() {
        0
    } else if occurs_at(content, CONFLICT_MARKER_START@, i) {
        1 + markers_from(content, i + 7)
    } else {
        markers_from(content, i + 1)
    }
}

/// How a file stands to a conflict.
#[derive(Debug, Clone, Copy, PartialEq, Eq, Structural)]
pub enum ResolutionStatus {
    /// File has no conflicts
    Clean,
    /// File has unresolved conflicts
    Conflicted,
    /// File was resolved (markers removed)
    Resolved,
    /// File not found
    Missing,
}

/// A line without the carriage return at its end, if it has one.
pub open spec fn trim_cr(line: Seq<u8>) -> Seq<u8> {
    if line.len() > 0 && line.last() == CARRIAGE_RETURN {
        line.drop_last()
    } else {
        line
    }
}

/// The lines of the contents from `start` on, looking on from `i`: each
/// line ends before a newline, without the carriage return before it, or at
/// the end of the contents; what follows the last newline is a line only if
/// it is not empty.
pub open spec fn lines_from(content: Seq<u8>, start: int, i: int) -> Seq<Seq<u8>>
    decreases content.len() - i,
{
    if i < 0 || start < 0 || start > i {
        Seq::empty()
    } else if i >= content.len() {
        if start < content.len() {
            seq![content.subrange(start, content.len() as int)]
        } else {
            Seq::empty()
        }
    } else if content[i] == NEWLINE {
        seq![trim_cr(content.subrange(start, i))] + lines_from(content, i + 1, i + 1)
    } else {
        lines_from(content, start, i + 1)
    }
}

/// The lines of the contents.
pub open spec fn lines_of(content: Seq<u8>) -> Seq<Seq<u8>> {
    lines_from(content, 0, 0)
}

/// The side of a conflict that a line belongs to.
#[derive(Debug, Clone, Copy, PartialEq, Eq, Structural)]
pub enum Section {
    Ours,
    Base,
    Theirs,
}

/// One conflict region of a file.
#[derive(Debug, Clone, PartialEq, Eq)]
pub struct ConflictRegion {
    /// Line of the start marker, counted from 1
    pub start_line: usize,
    /// Line of the end marker, counted from 1
    pub end_line: usize,
    /// Our side
    pub ours: Vec<u8>,
    /// The base side, if the region has one
    pub base: Option<Vec<u8>>,
    /// Their side
    pub theirs: Vec<u8>,
}

/// A conflict region as a mathematical value.
pub struct RegionView {
    pub start_line: int,
    pub end_line: int,
    pub ours: Seq<u8>,
    pub base: Option<Seq<u8>>,
    pub theirs: Seq<u8>,
}

impl View for ConflictRegion {
    type V = RegionView;

    open spec fn view(&self) -> RegionView {
        RegionView {
            start_line: self.start_line as int,
            end_line: self.end_line as int,
            ours: self.ours@,
            base: match self.base {
                Some(b) => Some(b@),
                None => None,
            },
            theirs: self.theirs@,
        }
    }
}

/// Where the reader stands: outside any region, or inside one with what it
/// has gathered of it.
pub struct Reading {
    pub inside: bool,
    pub section: Section,
    pub region: RegionView,
}

/// The reader before the first line.
pub open spec fn outside() -> Reading {
    Reading {
        inside: false,
        section: Section::Ours,
        region: RegionView { start_line: 0, end_line: 0, ours: Seq::empty(), base: None, theirs: Seq::empty() },
    }
}

/// A side with one more line: lines are joined by newlines.
pub open spec fn joined(side: Seq<u8>, line: Seq<u8>) -> Seq<u8> {
    if side.len() > 0 {
        side.push(NEWLINE) + line
    } else {
        line
    }
}

/// The reader after a line, with the region that the line closes, if it
/// closes one. Outside a region only a start marker counts. Inside, a base
/// marker and a separator change the side, an end marker closes the region,
/// and any other line goes to the side at hand.
pub open spec fn read_line(r: Reading, line: Seq<u8>, line_no: int) -> (Reading, Option<RegionView>) {
    if !r.inside {
        if starts_with(line, CONFLICT_MARKER_START@) {
            (
                Reading {
                    inside: true,
                    section: Section::Ours,
                    region: RegionView {
                        start_line: line_no,
                        end_line: 0,
                        ours: Seq::empty(),
                        base: None,
                        theirs: Seq::empty(),
                    },
                },
                None,
            )
        } else {
            (r, None)
        }
    } else if starts_with(line, CONFLICT_MARKER_BASE@) {
        (
            Reading {
                section: Section::Base,
                region: RegionView { base: Some(Seq::empty()), ..r.region },
                ..r
            },
            None,
        )
    } else if starts_with(line, CONFLICT_MARKER_SEPARATOR@) {
        (Reading { section: Section::Theirs, ..r }, None)
    } else if starts_with(line, CONFLICT_MARKER_END@) {
        (outside(), Some(RegionView { end_line: line_no, ..r.region }))
    } else {
        (
            Reading {
                region: match r.section {
                    Section::Ours => RegionView { ours: joined(r.region.ours, line), ..r.region },
                    Section::Base => RegionView {
                        base: match r.region.base {
                            Some(b) => Some(joined(b, line)),
                            None => None,
                        },
                        ..r.region
                    },
                    Section::Theirs => RegionView { theirs: joined(r.region.theirs, line), ..r.region },
                },
                ..r
            },
            None,
        )
    }
}

/// The regions that the reader finds from line `i` on, after those in `found`.
pub open spec fn read_from(lines: Seq<Seq<u8>>, i: int, r: Reading, found: Seq<RegionView>) -> Seq<RegionView>
    decreases lines.len() - i,
{
    if i < 0 || i >= lines.len() {
        found
    } else {
        let (next, closed) = read_line(r, lines[i], i + 1);
        read_from(
            lines,
            i + 1,
            next,
            match closed {
                Some(region) => found.push(region),
                None => found,
            },
        )
    }
}

/// The conflict regions of file contents; a region without an end marker
/// is none.
pub open spec fn regions_of(content: Seq<u8>) -> Seq<RegionView> {
    read_from(lines_of(content), 0, outside(), Seq::empty())
}

/// Appends a side of a conflict, ended by a newline.
fn push_side(out: &mut Vec<u8>, text: &[u8])
    ensures
        final(out)@ == old(out)@ + with_newline(text@),
{
    let ghost before = out@;
    out.extend_from_slice(text);
    if text.len() > 0 && text[text.len() - 1] != NEWLINE {
        out.push(NEWLINE);
    }
    assert(out@ =~= before + with_newline(text@));
}

/// The contents of a file that holds the sides of a conflict between
/// markers.
pub fn write_conflict_markers(
    base: Option<&[u8]>,
    ours: &[u8],
    theirs: &[u8],
    ours_label: &[u8],
    theirs_label: &[u8],
) -> (out: Vec<u8>)
    ensures
        out@ == conflict_text(
            match base {
                Some(b) => Some(b@),
                None => None,
            },
            ours@,
            theirs@,
            ours_label@,
            theirs_label@,
        ),
{
    let ghost base_view = match base {
        Some(b) => Some(b@),
        None => None,
    };
    let mut out: Vec<u8> = Vec::new();
    out.extend_from_slice(CONFLICT_MARKER_START.as_slice());
    out.push(SPACE);
    out.extend_from_slice(ours_label);
    out.push(NEWLINE);
    push_side(&mut out, ours);
    let ghost head = out@;
    assert(head =~= CONFLICT_MARKER_START@ + seq![SPACE] + ours_label@ + seq![NEWLINE] + with_newline(
        ours@,
    ));
    match base {
        Some(text) => {
            out.extend_from_slice(CONFLICT_MARKER_BASE.as_slice());
            out.extend_from_slice(BASE_LABEL.as_slice());
            out.push(NEWLINE);
            push_side(&mut out, text);
            assert(out@ =~= head + base_part(base_view));
        },
        None => {
            assert(out@ =~= head + base_part(base_view));
        },
    }
    out.extend_from_slice(CONFLICT_MARKER_SEPARATOR.as_slice());
    out.push(NEWLINE);
    push_side(&mut out, theirs);
    out.extend_from_slice(CONFLICT_MARKER_END.as_slice());
    out.push(SPACE);
    out.extend_from_slice(theirs_label);
    out.push(NEWLINE);
    assert(out@ =~= conflict_text(base_view, ours@, theirs@, ours_label@, theirs_label@));
    out
}

/// The contents of a conflicted file and the number of its regions: the
/// whole file is written as one conflict.
pub fn write_smart_conflict_markers(
    base: Option<&[u8]>,
    ours: &[u8],
    theirs: &[u8],
    ours_label: &[u8],
    theirs_label: &[u8],
) -> (r: (Vec<u8>, usize))
    ensures
        r.1 == 1,
        r.0@ == conflict_text(
            match base {
                Some(b) => Some(b@),
                None => None,
            },
            ours@,
            theirs@,
            ours_label@,
            theirs_label@,
        ),
{
    (write_conflict_markers(base, ours, theirs, ours_label, theirs_label), 1)
}

/// Whether contents hold conflict markers.
pub fn has_conflict_markers(content: &[u8]) -> (r: bool)
    ensures
        r == marked(content@),
{
    bytes_contain(content, CONFLICT_MARKER_START.as_slice()) && bytes_contain(
        content,
        CONFLICT_MARKER_END.as_slice(),
    )
}

/// Whether all conflicts of the contents are resolved: no markers are left.
pub fn is_resolved(content: &[u8]) -> (r: bool)
    ensures
        r == !marked(content@),
{
    !has_conflict_markers(content)
}

/// The number of start markers in the contents.
pub fn count_conflicts(content: &[u8]) -> (n: usize)
    ensures
        n == markers_from(content@, 0),
{
    let total = content.len();
    let mut n: usize = 0;
    let mut i: usize = 0;
    while total - i >= 7
        invariant
            total == content@.len(),
            i <= total,
            n <= i,
            n + markers_from(content@, i as int) == markers_from(content@, 0),
        decreases total - i,
    {
        if bytes_start_with(slice_subrange(content, i, total), CONFLICT_MARKER_START.as_slice()) {
            proof {
                let rest = content@.subrange(i as int, total as int);
                assert(rest.subrange(0, 7) =~= content@.subrange(i as int, i + 7));
            }
            n = n + 1;
            i = i + 7;
        } else {
            proof {
                let rest = content@.subrange(i as int, total as int);
                assert(rest.subrange(0, 7) =~= content@.subrange(i as int, i + 7));
            }
            i = i + 1;
        }
    }
    n
}

/// How a file stands to a conflict, from its contents if it exists.
pub fn check_resolution_status(content: Option<&[u8]>, was_conflicted: bool) -> (status: ResolutionStatus)
    ensures
        status == (match content {
            None => ResolutionStatus::Missing,
            Some(c) => if marked(c@) {
                ResolutionStatus::Conflicted
            } else if was_conflicted {
                ResolutionStatus::Resolved
            } else {
                ResolutionStatus::Clean
            },
        }),
{
    match content {
        None => ResolutionStatus::Missing,
        Some(c) => {
            if has_conflict_markers(c) {
                ResolutionStatus::Conflicted
            } else if was_conflicted {
                ResolutionStatus::Resolved
            } else {
                ResolutionStatus::Clean
            }
        },
    }
}

/// The mathematical value of a list of lines.
pub open spec fn lines_view(lines: Seq<Vec<u8>>) -> Seq<Seq<u8>> {
    Seq::new(lines.len(), |i: int| lines[i]@)
}

/// A line without the carriage return at its end.
fn trimmed(line: &[u8]) -> (out: Vec<u8>)
    ensures
        out@ == trim_cr(line@),
{
    let n = line.len();
    if n > 0 && line[n - 1] == CARRIAGE_RETURN {
        let out = slice_to_vec(slice_subrange(line, 0, n - 1));
        assert(out@ =~= line@.drop_last());
        out
    } else {
        slice_to_vec(line)
    }
}

/// Splits contents into lines.
pub fn split_lines(content: &[u8]) -> (lines: Vec<Vec<u8>>)
    ensures
        lines_view(lines@) == lines_of(content@),
{
    let total = content.len();
    let mut lines: Vec<Vec<u8>> = Vec::new();
    let mut start: usize = 0;
    let mut i: usize = 0;
    assert(lines_view(lines@) + lines_from(content@, 0, 0) =~= lines_of(content@));
    while i < total
        invariant
            total == content@.len(),
            start <= i <= total,
            lines_view(lines@) + lines_from(content@, start as int, i as int) == lines_of(content@),
        decreases total - i,
    {
        if content[i] == NEWLINE {
            let ghost before = lines_view(lines@);
            lines.push(trimmed(slice_subrange(content, start, i)));
            proof {
                let line = trim_cr(content@.subrange(start as int, i as int));
                assert(lines_view(lines@) =~= before.push(line));
                assert(before + (seq![line] + lines_from(content@, i + 1, i + 1)) =~= before.push(line)
                    + lines_from(content@, i + 1, i + 1));
            }
            start = i + 1;
        }
        i = i + 1;
    }
    if start < total {
        let ghost before = lines_view(lines@);
        lines.push(slice_to_vec(slice_subrange(content, start, total)));
        proof {
            let line = content@.subrange(start as int, total as int);
            assert(lines_view(lines@) =~= before.push(line));
            assert(before + seq![line] =~= before.push(line));
        }
    } else {
        assert(lines_view(lines@) + Seq::<Seq<u8>>::empty() =~= lines_view(lines@));
    }
    lines
}

/// Appends a line to a side.
fn join_line(side: &mut Vec<u8>, line: &[u8])
    ensures
        final(side)@ == joined(old(side)@, line@),
{
    let ghost before = side@;
    if side.len() > 0 {
        side.push(NEWLINE);
    }
    side.extend_from_slice(line);
    assert(side@ =~= joined(before, line@));
}

/// The mathematical value of a list of regions.
pub open spec fn regions_view(regions: Seq<ConflictRegion>) -> Seq<RegionView> {
    Seq::new(regions.len(), |i: int| regions[i]@)
}

/// Reads the conflict regions of file contents.
pub fn parse_conflict_regions(content: &[u8]) -> (regions: Vec<ConflictRegion>)
    ensures
        regions_view(regions@) == regions_of(content@),
{
    let lines = split_lines(content);
    let ghost all = lines_view(lines@);
    let mut regions: Vec<ConflictRegion> = Vec::new();
    let mut inside = false;
    let mut section = Section::Ours;
    let mut start_line: usize = 0;
    let mut ours: Vec<u8> = Vec::new();
    let mut base: Option<Vec<u8>> = None;
    let mut theirs: Vec<u8> = Vec::new();
    let n = lines.len();
    let mut i: usize = 0;
    assert(regions_view(regions@) =~= Seq::<RegionView>::empty());
    while i < n
        invariant
            n == lines@.len(),
            i <= n,
            all == lines_view(lines@),
            all == lines_of(content@),
            !inside ==> section == Section::Ours && start_line == 0 && ours@.len() == 0 && base is None
                && theirs@.len() == 0,
            regions_of(content@) == read_from(
                all,
                i as int,
                Reading {
                    inside,
                    section,
                    region: RegionView {
                        start_line: start_line as int,
                        end_line: 0,
                        ours: ours@,
                        base: opt_view(base),
                        theirs: theirs@,
                    },
                },
                regions_view(regions@),
            ),
        decreases n - i,
    {
        let line = lines[i].as_slice();
        assert(line@ == all[i as int]);
        let ghost found = regions_view(regions@);
        let ghost reading = Reading {
            inside,
            section,
            region: RegionView {
                start_line: start_line as int,
                end_line: 0,
                ours: ours@,
                base: opt_view(base),
                theirs: theirs@,
            },
        };
        if !inside {
            if bytes_start_with(line, CONFLICT_MARKER_START.as_slice()) {
                inside = true;
                start_line = i + 1;
                assert(ours@ =~= Seq::<u8>::empty() && theirs@ =~= Seq::<u8>::empty());
            } else {
                assert(reading == outside()) by {
                    assert(ours@ =~= Seq::<u8>::empty() && theirs@ =~= Seq::<u8>::empty());
                }
            }
        } else if bytes_start_with(line, CONFLICT_MARKER_BASE.as_slice()) {
            section = Section::Base;
            base = Some(Vec::new());
            assert(base.unwrap()@ =~= Seq::<u8>::empty());
        } else if bytes_start_with(line, CONFLICT_MARKER_SEPARATOR.as_slice()) {
            section = Section::Theirs;
        } else if bytes_start_with(line, CONFLICT_MARKER_END.as_slice()) {
            let mut done_ours: Vec<u8> = Vec::new();
            let mut done_base: Option<Vec<u8>> = None;
            let mut done_theirs: Vec<u8> = Vec::new();
            core::mem::swap(&mut done_ours, &mut ours);
            core::mem::swap(&mut done_base, &mut base);
            core::mem::swap(&mut done_theirs, &mut theirs);
            regions.push(
                ConflictRegion {
                    start_line,
                    end_line: i + 1,
                    ours: done_ours,
                    base: done_base,
                    theirs: done_theirs,
                },
            );
            inside = false;
            section = Section::Ours;
            start_line = 0;
            proof {
                assert(regions_view(regions@) =~= found.push(
                    RegionView { end_line: i + 1, ..reading.region },
                ));
                assert(ours@ =~= Seq::<u8>::empty() && theirs@ =~= Seq::<u8>::empty());
            }
        } else {
            match section {
                Section::Ours => {
                    join_line(&mut ours, line);
                },
                Section::Base => {
                    match base {
                        Some(mut b) => {
                            join_line(&mut b, line);
                            base = Some(b);
                        },
                        None => {
                            base = None;
                        },
                    }
                },
                Section::Theirs => {
                    join_line(&mut theirs, line);
                },
            }
        }
        i = i + 1;
    }
    regions
}

} // verus!
