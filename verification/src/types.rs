//! Core types used throughout the profiler: stack frames and stack traces.
use vstd::prelude::*;

use crate::text::{
    chars_lt, chars_of, compare_chars, copy_opt_string, dec, opt_view, push_chars, push_dec,
    same_opt_string, string_of,
};

verus! {

/// A process identifier.
pub type Pid = i32;

/// A point in time, as the time elapsed since the UNIX epoch.
#[derive(Debug, Clone, Copy, PartialEq, Eq, Hash)]
pub struct Timestamp {
    pub secs: u64,
    pub nanos: u32,
}

impl Timestamp {
    /// The timestamp in nanoseconds.
    pub open spec fn total_nanos(self) -> int {
        self.secs * 1_000_000_000 + self.nanos
    }
}

/// One frame of a Ruby stack.
#[derive(Debug, Clone, PartialEq, Eq, Hash)]
pub struct StackFrame {
    pub name: String,
    pub relative_path: String,
    pub absolute_path: Option<String>,
    pub lineno: u32,
}

/// The mathematical value of a stack frame.
pub struct FrameView {
    pub name: Seq<char>,
    pub relative_path: Seq<char>,
    pub absolute_path: Option<Seq<char>>,
    pub lineno: u32,
}

impl View for StackFrame {
    type V = FrameView;

    open spec fn view(&self) -> FrameView {
        FrameView {
            name: self.name@,
            relative_path: self.relative_path@,
            absolute_path: opt_view(self.absolute_path),
            lineno: self.lineno,
        }
    }
}

/// The path shown for a frame: the absolute path when known, else the relative one.
pub open spec fn frame_path(f: FrameView) -> Seq<char> {
    match f.absolute_path {
        Some(p) => p,
        None => f.relative_path,
    }
}

/// How a frame is displayed: `name - path:lineno`.
pub open spec fn frame_display(f: FrameView) -> Seq<char> {
    f.name + seq![' ', '-', ' '] + frame_path(f) + seq![':'] + dec(f.lineno as nat)
}

/// The order of frames: by path, then name, then line number.
pub open spec fn frame_lt(a: FrameView, b: FrameView) -> bool {
    ||| chars_lt(frame_path(a), frame_path(b))
    ||| (frame_path(a) == frame_path(b) && chars_lt(a.name, b.name))
    ||| (frame_path(a) == frame_path(b) && a.name == b.name && a.lineno < b.lineno)
}

/// Frames that the order does not tell apart.
pub open spec fn frame_same_place(a: FrameView, b: FrameView) -> bool {
    frame_path(a) == frame_path(b) && a.name == b.name && a.lineno == b.lineno
}

/// The frame that stands for a C function that could not be identified.
pub open spec fn unknown_frame() -> FrameView {
    FrameView {
        name: seq![
            '(',
            'u',
            'n',
            'k',
            'n',
            'o',
            'w',
            'n',
            ')',
            ' ',
            '[',
            'c',
            ' ',
            'f',
            'u',
            'n',
            'c',
            't',
            'i',
            'o',
            'n',
            ']',
        ],
        relative_path: seq!['(', 'u', 'n', 'k', 'n', 'o', 'w', 'n', ')'],
        absolute_path: None,
        lineno: 0,
    }
}

/// Frames are ordered as the path, then the name, then the line number order them: a
/// strict order under which any two frames are ordered unless they are at the same
/// place.
pub proof fn law_frame_order(a: FrameView, b: FrameView, c: FrameView)
    ensures
        !frame_lt(a, a),
        !(frame_lt(a, b) && frame_lt(b, a)),
        frame_lt(a, b) || frame_lt(b, a) || frame_same_place(a, b),
        frame_lt(a, b) && frame_lt(b, c) ==> frame_lt(a, c),
{
    crate::text::lemma_chars_lt_total(frame_path(a), frame_path(b));
    crate::text::lemma_chars_lt_total(a.name, b.name);
    crate::text::lemma_chars_lt_total(frame_path(a), frame_path(a));
    crate::text::lemma_chars_lt_total(a.name, a.name);
    crate::text::lemma_chars_lt_total(frame_path(b), frame_path(c));
    crate::text::lemma_chars_lt_total(b.name, c.name);
    crate::text::lemma_chars_lt_total(frame_path(a), frame_path(c));
    crate::text::lemma_chars_lt_total(a.name, c.name);
    if frame_lt(a, b) && frame_lt(b, c) {
        if chars_lt(frame_path(a), frame_path(b)) && chars_lt(frame_path(b), frame_path(c)) {
            crate::text::lemma_chars_lt_transitive(frame_path(a), frame_path(b), frame_path(c));
        }
        if frame_path(a) == frame_path(b) && frame_path(b) == frame_path(c) && chars_lt(a.name, b.name)
            && chars_lt(b.name, c.name) {
            crate::text::lemma_chars_lt_transitive(a.name, b.name, c.name);
        }
    }
}

impl StackFrame {
    /// The path of the frame: the absolute one when known.
    pub fn path(&self) -> (p: &String)
        ensures
            p@ == frame_path(self@),
    {
        match &self.absolute_path {
            Some(p) => p,
            None => &self.relative_path,
        }
    }

    /// The frame used for a C function that is not recognised.
    pub fn unknown_c_function() -> (f: StackFrame)
        ensures
            f@ == unknown_frame(),
    {
        let name = vec![
            '(',
            'u',
            'n',
            'k',
            'n',
            'o',
            'w',
            'n',
            ')',
            ' ',
            '[',
            'c',
            ' ',
            'f',
            'u',
            'n',
            'c',
            't',
            'i',
            'o',
            'n',
            ']',
        ];
        let rel = vec!['(', 'u', 'n', 'k', 'n', 'o', 'w', 'n', ')'];
        let f = StackFrame {
            name: string_of(name.as_slice()),
            relative_path: string_of(rel.as_slice()),
            absolute_path: None,
            lineno: 0,
        };
        assert(f@.name =~= unknown_frame().name);
        assert(f@.relative_path =~= unknown_frame().relative_path);
        f
    }

    /// A copy of the frame.
    pub fn duplicate(&self) -> (f: StackFrame)
        ensures
            f@ == self@,
    {
        StackFrame {
            name: self.name.clone(),
            relative_path: self.relative_path.clone(),
            absolute_path: copy_opt_string(&self.absolute_path),
            lineno: self.lineno,
        }
    }

    /// Whether two frames are equal.
    pub fn same_as(&self, other: &StackFrame) -> (r: bool)
        ensures
            r == (self@ == other@),
    {
        self.name == other.name && self.relative_path == other.relative_path && same_opt_string(
            &self.absolute_path,
            &other.absolute_path,
        ) && self.lineno == other.lineno
    }

    /// Appends `name - path:lineno` to `buf`.
    pub fn push_display(&self, buf: &mut Vec<char>)
        ensures
            final(buf)@ == old(buf)@ + frame_display(self@),
    {
        let name = chars_of(self.name.as_str());
        push_chars(buf, name.as_slice());
        buf.push(' ');
        buf.push('-');
        buf.push(' ');
        let path = chars_of(self.path().as_str());
        push_chars(buf, path.as_slice());
        buf.push(':');
        push_dec(buf, self.lineno as u64);
        assert(buf@ =~= old(buf)@ + frame_display(self@));
    }

    /// The frame displayed as `name - path:lineno`.
    pub fn to_display_string(&self) -> (s: String)
        ensures
            s@ == frame_display(self@),
    {
        let mut buf: Vec<char> = Vec::new();
        self.push_display(&mut buf);
        assert(buf@ =~= frame_display(self@));
        string_of(buf.as_slice())
    }

    /// Compares frames by path, then name, then line number: -1, 0 or 1.
    pub fn compare(&self, other: &StackFrame) -> (r: i8)
        ensures
            r == -1 <==> frame_lt(self@, other@),
            r == 0 <==> frame_same_place(self@, other@),
            r == 1 <==> frame_lt(other@, self@),
            r == -1 || r == 0 || r == 1,
    {
        let pa = chars_of(self.path().as_str());
        let pb = chars_of(other.path().as_str());
        proof {
            crate::text::lemma_chars_lt_total(pa@, pb@);
            crate::text::lemma_chars_lt_total(self.name@, other.name@);
        }
        let c = compare_chars(pa.as_slice(), pb.as_slice());
        if c != 0 {
            return c;
        }
        let na = chars_of(self.name.as_str());
        let nb = chars_of(other.name.as_str());
        let d = compare_chars(na.as_slice(), nb.as_slice());
        if d != 0 {
            return d;
        }
        if self.lineno < other.lineno {
            -1
        } else if self.lineno > other.lineno {
            1
        } else {
            0
        }
    }
}

/// A stack sample of one thread of one process.
#[derive(Debug, Clone, PartialEq, Eq, Hash)]
pub struct StackTrace {
    /// The frames, innermost first.
    pub trace: Vec<StackFrame>,
    pub pid: Option<Pid>,
    pub thread_id: Option<usize>,
    pub time: Option<Timestamp>,
}

/// The views of a sequence of frames.
pub open spec fn frames_view(frames: Seq<StackFrame>) -> Seq<FrameView> {
    frames.map_values(|f: StackFrame| f@)
}

impl StackTrace {
    /// The frames of the trace.
    pub fn iter(&self) -> (frames: &[StackFrame])
        ensures
            frames@ == self.trace@,
    {
        self.trace.as_slice()
    }

    /// A trace made of frames only, as in the oldest storage format.
    pub fn from_frames(trace: Vec<StackFrame>) -> (t: StackTrace)
        ensures
            t.trace@ == trace@,
            t.pid is None,
            t.thread_id is None,
            t.time is None,
    {
        StackTrace { pid: None, trace, thread_id: None, time: None }
    }
}

/// Copies of frames.
pub fn duplicate_frames(frames: &[StackFrame]) -> (r: Vec<StackFrame>)
    ensures
        frames_view(r@) == frames_view(frames@),
{
    let mut r: Vec<StackFrame> = Vec::new();
    let mut i: usize = 0;
    while i < frames.len()
        invariant
            i <= frames@.len(),
            r@.len() == i,
            forall|j: int| 0 <= j < i ==> #[trigger] r@[j]@ == frames@[j]@,
        decreases frames@.len() - i,
    {
        r.push(frames[i].duplicate());
        i = i + 1;
    }
    assert(frames_view(r@) =~= frames_view(frames@));
    r
}

} // verus!
