//! Sources of TOML text and positions in them.

use vstd::prelude::*;

use std::sync::Arc;
use vstd::string::StringSliceAdditionalSpecFns;

verus! {

/// Whether `b` starts a character in UTF-8, i.e. isn't a continuation byte.
pub open spec fn is_char_start(b: u8) -> bool {
    b < 0x80 || b >= 0xc0
}

/// A position in a source: the byte offset, and the line and the column in
/// characters, both counted from 0.
#[derive(Clone, Copy, Debug, PartialEq, Eq)]
pub struct Pos {
    offset: usize,
    line: usize,
    column: usize,
}

impl Pos {
    /// The byte offset.
    pub closed spec fn spec_offset(self) -> usize {
        self.offset
    }

    /// The line, counted from 0.
    pub closed spec fn spec_line(self) -> usize {
        self.line
    }

    /// The column in characters, counted from 0.
    pub closed spec fn spec_column(self) -> usize {
        self.column
    }

    /// The start of a source.
    pub closed spec fn spec_start() -> Pos {
        Pos { offset: 0, line: 0, column: 0 }
    }

    /// The position lies in a source of `len` bytes, and line and column
    /// count no more than the bytes before it.
    pub open spec fn fits(self, len: nat) -> bool {
        &&& self.spec_offset() <= len <= usize::MAX
        &&& self.spec_line() <= self.spec_offset()
        &&& self.spec_column() <= self.spec_offset()
    }

    /// The position after the byte `b`: a newline starts the next line, the
    /// first byte of a character moves one column on.
    pub closed spec fn spec_step(self, b: u8) -> Pos {
        Pos {
            offset: (self.offset + 1) as usize,
            line: if b == 10 { (self.line + 1) as usize } else { self.line },
            column: if b == 10 {
                0
            } else if is_char_start(b) {
                (self.column + 1) as usize
            } else {
                self.column
            },
        }
    }

    /// The position after the bytes of `source` from this position up to
    /// `end`.
    pub open spec fn spec_advance(self, source: Seq<u8>, end: int) -> Pos
        decreases end - self.spec_offset(),
    {
        if self.spec_offset() < end && self.spec_offset() < source.len() && self.spec_offset()
            < usize::MAX {
            proof {
                assert(self.spec_step(source[self.spec_offset() as int]).spec_offset()
                    == self.spec_offset() + 1);
            }
            self.spec_step(source[self.spec_offset() as int]).spec_advance(source, end)
        } else {
            self
        }
    }

    /// Returns the byte offset.
    pub fn offset(&self) -> (r: usize)
        ensures
            r == self.spec_offset(),
    {
        self.offset
    }

    /// Returns the line, counted from 0.
    pub fn line(&self) -> (r: usize)
        ensures
            r == self.spec_line(),
    {
        self.line
    }

    /// Returns the column in characters, counted from 0.
    pub fn column(&self) -> (r: usize)
        ensures
            r == self.spec_column(),
    {
        self.column
    }
}

/// How many newline bytes (`\n`) `s` holds.
pub open spec fn count_newlines(s: Seq<u8>) -> nat
    decreases s.len(),
{
    if s.len() == 0 {
        0
    } else {
        (if s[0] == 10 { 1nat } else { 0nat }) + count_newlines(s.drop_first())
    }
}

proof fn lemma_advance_lines(p: Pos, source: Seq<u8>, end: int)
    requires
        p.fits(source.len()),
        p.spec_offset() <= end <= source.len(),
    ensures
        p.spec_advance(source, end).spec_line() == p.spec_line() + count_newlines(
            source.subrange(p.spec_offset() as int, end),
        ),
    decreases end - p.spec_offset(),
{
    let sub = source.subrange(p.spec_offset() as int, end);
    if p.spec_offset() < end {
        let q = p.spec_step(source[p.spec_offset() as int]);
        assert(q.fits(source.len()));
        lemma_advance_lines(q, source, end);
        assert(sub.drop_first() =~= source.subrange(q.spec_offset() as int, end));
        assert(sub[0] == source[p.spec_offset() as int]);
    } else {
        assert(sub.len() == 0);
    }
}

/// The column reached after the bytes `s`, from column `column`: the
/// characters after the last newline in `s`, counted on from `column` if
/// there is none.
pub open spec fn column_after(column: nat, s: Seq<u8>) -> nat
    decreases s.len(),
{
    if s.len() == 0 {
        column
    } else if s.last() == 10 {
        0
    } else {
        column_after(column, s.drop_last()) + if is_char_start(s.last()) {
            1nat
        } else {
            0nat
        }
    }
}

/// Reading one byte and then `s` gives the column of reading both at once.
proof fn lemma_column_after_front(column: nat, b: u8, s: Seq<u8>)
    ensures
        column_after(column, seq![b] + s) == column_after(
            if b == 10 {
                0
            } else if is_char_start(b) {
                column + 1
            } else {
                column
            },
            s,
        ),
    decreases s.len(),
{
    let t = seq![b] + s;
    let c2: nat = if b == 10 {
        0
    } else if is_char_start(b) {
        column + 1
    } else {
        column
    };
    if s.len() == 0 {
        assert(t.drop_last() =~= Seq::<u8>::empty());
        assert(t.last() == b);
        assert(column_after(column, Seq::<u8>::empty()) == column);
        assert(column_after(c2, s) == c2);
    } else {
        assert(t.drop_last() =~= seq![b] + s.drop_last());
        assert(t.last() == s.last());
        lemma_column_after_front(column, b, s.drop_last());
        assert(column_after(column, t.drop_last()) == column_after(c2, s.drop_last()));
    }
}

proof fn lemma_advance_columns(p: Pos, source: Seq<u8>, end: int)
    requires
        p.fits(source.len()),
        p.spec_offset() <= end <= source.len(),
    ensures
        p.spec_advance(source, end).spec_column() == column_after(
            p.spec_column() as nat,
            source.subrange(p.spec_offset() as int, end),
        ),
    decreases end - p.spec_offset(),
{
    let sub = source.subrange(p.spec_offset() as int, end);
    if p.spec_offset() < end {
        let b = source[p.spec_offset() as int];
        let q = p.spec_step(b);
        assert(q.fits(source.len()));
        lemma_advance_columns(q, source, end);
        assert(sub =~= seq![b] + source.subrange(q.spec_offset() as int, end));
        lemma_column_after_front(p.spec_column() as nat, b, source.subrange(q.spec_offset() as int, end));
    } else {
        assert(sub.len() == 0);
    }
}

/// The column of a position reached from the start of a source counts the
/// characters (bytes that start one) since the last newline before it.
pub proof fn lemma_advance_counts_columns(source: Seq<u8>, end: int)
    requires
        0 <= end <= source.len() <= usize::MAX,
    ensures
        Pos::spec_start().spec_advance(source, end).spec_column() == column_after(0, source.take(end)),
{
    lemma_advance_columns(Pos::spec_start(), source, end);
    assert(source.subrange(0, end) =~= source.take(end));
}

/// Moving on through a source counts a line for each newline byte passed,
/// and for nothing else: the line of the position reached from the start of
/// a source is the number of newlines before it.
pub proof fn lemma_advance_counts_lines(p: Pos, source: Seq<u8>, end: int)
    requires
        p.fits(source.len()),
        p.spec_offset() <= end <= source.len(),
    ensures
        p.spec_advance(source, end).spec_line() == p.spec_line() + count_newlines(
            source.subrange(p.spec_offset() as int, end),
        ),
        Pos::spec_start().spec_advance(source, end).spec_line() == count_newlines(source.take(end)),
{
    lemma_advance_lines(p, source, end);
    lemma_advance_lines(Pos::spec_start(), source, end);
    assert(source.subrange(0, end) =~= source.take(end));
}

/// Advancing stays inside the source and reaches `end`.
proof fn lemma_advance_fits(p: Pos, source: Seq<u8>, end: int)
    requires
        p.fits(source.len()),
        p.offset <= end <= source.len(),
    ensures
        p.spec_advance(source, end).fits(source.len()),
        p.spec_advance(source, end).offset == end,
    decreases end - p.offset,
{
    if p.offset < end {
        lemma_advance_fits(p.spec_step(source[p.offset as int]), source, end);
    }
}

/// Advancing in two steps is advancing at once.
proof fn lemma_advance_twice(p: Pos, source: Seq<u8>, mid: int, end: int)
    requires
        p.fits(source.len()),
        p.offset <= mid <= end <= source.len(),
    ensures
        p.spec_advance(source, mid).spec_advance(source, end) == p.spec_advance(source, end),
    decreases mid - p.offset,
{
    if p.offset < mid {
        lemma_advance_twice(p.spec_step(source[p.offset as int]), source, mid, end);
    } else {
        assert(p.spec_advance(source, mid) == p);
    }
}

/// A TOML source: its text and, where it came from a file, the file's path.
#[derive(Clone, Debug)]
pub struct SourceFile {
    path: Option<String>,
    source: String,
}

impl SourceFile {
    /// The path of the file the source came from.
    pub closed spec fn spec_path(&self) -> Option<String> {
        self.path
    }

    /// The bytes of the source.
    pub closed spec fn bytes(&self) -> Seq<u8> {
        vstd::utf8::encode_utf8(self.source@)
    }

    /// A source with the text `source`, from the file at `path` if it came
    /// from one.
    pub fn new(path: Option<String>, source: String) -> (r: Self)
        ensures
            r.spec_path() == path,
            r.bytes() == vstd::utf8::encode_utf8(source@),
    {
        SourceFile { path, source }
    }

    /// Returns the path of the file the source came from.
    pub fn path(&self) -> (r: Option<&str>)
        ensures
            r is Some <==> self.spec_path() is Some,
            r matches Some(p) ==> p@ == self.spec_path().unwrap()@,
    {
        match &self.path {
            Some(p) => Some(p.as_str()),
            None => None,
        }
    }

    /// Returns the text of the source.
    pub fn source(&self) -> (r: &str)
        ensures
            r.spec_bytes() == self.bytes(),
    {
        self.source.as_str()
    }

    /// Returns the bytes of the source.
    pub fn source_bytes(&self) -> (r: &[u8])
        ensures
            r@ == self.bytes(),
    {
        self.source.as_str().as_bytes()
    }
}

/// Calls `Arc::clone`, which gives another pointer to the same source.
#[verifier::external_body]
fn share(source_file: &Arc<SourceFile>) -> (r: Arc<SourceFile>)
    ensures
        *r == **source_file,
{
    Arc::clone(source_file)
}

/// A stretch of a source, from `start` up to `end`.
#[derive(Clone, Debug)]
pub struct Span {
    start: Pos,
    end: Pos,
    source_file: Arc<SourceFile>,
}

impl Span {
    /// Where the span starts.
    pub closed spec fn spec_start(&self) -> Pos {
        self.start
    }

    /// Where the span ends.
    pub closed spec fn spec_end(&self) -> Pos {
        self.end
    }

    /// The source the span lies in.
    pub closed spec fn spec_source_file(&self) -> SourceFile {
        *self.source_file
    }

    /// The span lies in its source, and its positions are where the bytes
    /// of the source put them.
    pub open spec fn wf(&self) -> bool {
        let bytes = self.spec_source_file().bytes();
        &&& self.spec_start().fits(bytes.len())
        &&& self.spec_start().spec_offset() <= self.spec_end().spec_offset() <= bytes.len()
        &&& self.spec_end() == self.spec_start().spec_advance(
            bytes,
            self.spec_end().spec_offset() as int,
        )
    }

    /// The bytes of the source the span covers.
    pub open spec fn spec_bytes(&self) -> Seq<u8> {
        self.spec_source_file().bytes().subrange(
            self.spec_start().spec_offset() as int,
            self.spec_end().spec_offset() as int,
        )
    }

    /// Returns where the span starts.
    pub fn start(&self) -> (r: Pos)
        ensures
            r == self.spec_start(),
    {
        self.start
    }

    /// Returns where the span ends.
    pub fn end(&self) -> (r: Pos)
        ensures
            r == self.spec_end(),
    {
        self.end
    }

    /// Returns the source the span lies in.
    pub fn source_file(&self) -> (r: &SourceFile)
        ensures
            *r == self.spec_source_file(),
    {
        &self.source_file
    }

    /// Returns the bytes of the source the span covers.
    pub fn bytes(&self) -> (r: &[u8])
        requires
            self.wf(),
        ensures
            r@ == self.spec_bytes(),
    {
        proof {
            lemma_advance_fits(
                self.start,
                (*self.source_file).bytes(),
                self.end.offset as int,
            );
        }
        let all = self.source_file.source_bytes();
        vstd::slice::slice_subrange(all, self.start.offset, self.end.offset)
    }

    /// The span from the earlier start of the two spans to the later end.
    /// Both spans lie in the same source.
    pub fn merge(&self, other: &Span) -> (r: Span)
        requires
            self.spec_source_file() == other.spec_source_file(),
        ensures
            r.spec_source_file() == self.spec_source_file(),
            r.spec_start() == if self.spec_start().spec_offset() < other.spec_start().spec_offset() {
                self.spec_start()
            } else {
                other.spec_start()
            },
            r.spec_end() == if self.spec_end().spec_offset() > other.spec_end().spec_offset() {
                self.spec_end()
            } else {
                other.spec_end()
            },
    {
        let start = if self.start.offset < other.start.offset {
            self.start
        } else {
            other.start
        };
        let end = if self.end.offset > other.end.offset {
            self.end
        } else {
            other.end
        };
        Span { start, end, source_file: share(&self.source_file) }
    }
}

/// A saved position of an [`Input`], to go back to.
#[derive(Clone, Copy, Debug)]
pub struct Checkpoint {
    pos: Pos,
}

impl Checkpoint {
    /// The saved position.
    pub closed spec fn spec_pos(&self) -> Pos {
        self.pos
    }

    /// The number of bytes from `start` to this checkpoint.
    pub fn offset_from(&self, start: &Checkpoint) -> (r: usize)
        requires
            start.spec_pos().spec_offset() <= self.spec_pos().spec_offset(),
        ensures
            r == self.spec_pos().spec_offset() - start.spec_pos().spec_offset(),
    {
        self.pos.offset - start.pos.offset
    }
}

/// A source being parsed, with the position reached.
#[derive(Debug)]
pub struct Input {
    source_file: Arc<SourceFile>,
    pos: Pos,
}

impl Input {
    #[verifier::type_invariant]
    closed spec fn inv(self) -> bool {
        self.pos.fits((*self.source_file).bytes().len())
    }

    /// The source being parsed.
    pub closed spec fn spec_source_file(&self) -> SourceFile {
        *self.source_file
    }

    /// The position reached.
    pub closed spec fn spec_pos(&self) -> Pos {
        self.pos
    }

    /// The bytes of the source.
    pub open spec fn source_bytes(&self) -> Seq<u8> {
        self.spec_source_file().bytes()
    }

    /// The bytes from the position reached on.
    pub open spec fn rest(&self) -> Seq<u8> {
        self.source_bytes().skip(self.spec_pos().spec_offset() as int)
    }

    /// Starts parsing `source_file` at its start.
    pub fn new(source_file: Arc<SourceFile>) -> (r: Self)
        ensures
            r.spec_source_file() == *source_file,
            r.spec_pos() == Pos::spec_start(),
    {
        let bytes = source_file.source_bytes();
        proof {
            assert(vstd::slice::spec_slice_len(bytes) == bytes@.len());
        }
        Input { source_file, pos: Pos { offset: 0, line: 0, column: 0 } }
    }

    /// Returns the position reached.
    pub fn pos(&self) -> (r: Pos)
        ensures
            r == self.spec_pos(),
            r.fits(self.source_bytes().len()),
    {
        proof {
            use_type_invariant(self);
        }
        self.pos
    }

    /// Saves the position reached.
    pub fn checkpoint(&self) -> (r: Checkpoint)
        ensures
            r.spec_pos() == self.spec_pos(),
            r.spec_pos().fits(self.source_bytes().len()),
    {
        proof {
            use_type_invariant(self);
        }
        Checkpoint { pos: self.pos }
    }

    /// Goes back to a saved position, which lies in the source.
    pub fn reset(&mut self, checkpoint: &Checkpoint)
        requires
            checkpoint.spec_pos().fits(old(self).source_bytes().len()),
        ensures
            (*final(self)).spec_source_file() == old(self).spec_source_file(),
            (*final(self)).spec_pos() == checkpoint.spec_pos(),
    {
        self.pos = checkpoint.pos;
    }

    /// Returns the byte offset reached.
    pub fn location(&self) -> (r: usize)
        ensures
            r == self.spec_pos().spec_offset(),
    {
        self.pos.offset
    }

    /// Returns how many bytes are left.
    pub fn eof_offset(&self) -> (r: usize)
        ensures
            r == self.rest().len(),
    {
        proof {
            use_type_invariant(self);
        }
        let n = self.source_file.source_bytes().len();
        n - self.pos.offset
    }

    /// Returns the bytes from the position reached on.
    pub fn rest_bytes(&self) -> (r: &[u8])
        ensures
            r@ == self.rest(),
            self.spec_pos().fits(self.source_bytes().len()),
    {
        proof {
            use_type_invariant(self);
        }
        let all = self.source_file.source_bytes();
        vstd::slice::slice_subrange(all, self.pos.offset, all.len())
    }

    /// Moves `n` bytes on, and returns the span of those bytes.
    pub fn next_slice(&mut self, n: usize) -> (r: Span)
        requires
            n <= old(self).rest().len(),
        ensures
            (*final(self)).spec_source_file() == old(self).spec_source_file(),
            (*final(self)).spec_pos() == old(self).spec_pos().spec_advance(
                old(self).source_bytes(),
                old(self).spec_pos().spec_offset() + n,
            ),
            (*final(self)).spec_pos().spec_offset() == old(self).spec_pos().spec_offset() + n,
            r.wf(),
            r.spec_source_file() == old(self).spec_source_file(),
            r.spec_start() == old(self).spec_pos(),
            r.spec_end() == (*final(self)).spec_pos(),
    {
        proof {
            use_type_invariant(&*self);
        }
        let bytes = self.source_file.source_bytes();
        let start = self.pos;
        let end = start.offset + n;
        let mut pos = start;
        proof {
            lemma_advance_fits(start, bytes@, end as int);
        }
        while pos.offset < end
            invariant
                bytes@ == (*self.source_file).bytes(),
                start.fits(bytes@.len()),
                start.offset <= pos.offset <= end <= bytes@.len(),
                pos.fits(bytes@.len()),
                pos.spec_advance(bytes@, end as int) == start.spec_advance(bytes@, end as int),
            decreases end - pos.offset,
        {
            let b = bytes[pos.offset];
            let line = if b == 10 { pos.line + 1 } else { pos.line };
            let column = if b == 10 {
                0
            } else if b < 0x80 || b >= 0xc0 {
                pos.column + 1
            } else {
                pos.column
            };
            pos = Pos { offset: pos.offset + 1, line, column };
        }
        proof {
            lemma_advance_fits(start, bytes@, end as int);
        }
        self.pos = pos;
        Span { start, end: pos, source_file: share(&self.source_file) }
    }

    /// The span from a saved position to the position reached.
    pub fn span_from(&self, checkpoint: &Checkpoint) -> (r: Span)
        requires
            checkpoint.spec_pos().fits(self.source_bytes().len()),
            checkpoint.spec_pos().spec_offset() <= self.spec_pos().spec_offset(),
            self.spec_pos() == checkpoint.spec_pos().spec_advance(
                self.source_bytes(),
                self.spec_pos().spec_offset() as int,
            ),
        ensures
            r.wf(),
            r.spec_source_file() == self.spec_source_file(),
            r.spec_start() == checkpoint.spec_pos(),
            r.spec_end() == self.spec_pos(),
    {
        proof {
            use_type_invariant(self);
        }
        Span { start: checkpoint.pos, end: self.pos, source_file: share(&self.source_file) }
    }
}

impl Clone for Input {
    fn clone(&self) -> (r: Self)
        ensures
            r.spec_source_file() == self.spec_source_file(),
            r.spec_pos() == self.spec_pos(),
    {
        proof {
            use_type_invariant(self);
        }
        Input { source_file: share(&self.source_file), pos: self.pos }
    }
}

/// Moving on in two steps puts a span's end where moving on at once does.
pub proof fn lemma_advance_compose(p: Pos, source: Seq<u8>, mid: int, end: int)
    requires
        p.fits(source.len()),
        p.spec_offset() <= mid <= end <= source.len(),
    ensures
        p.spec_advance(source, mid).spec_advance(source, end) == p.spec_advance(source, end),
        p.spec_advance(source, end).fits(source.len()),
        p.spec_advance(source, mid).spec_offset() == mid,
{
    lemma_advance_twice(p, source, mid, end);
    lemma_advance_fits(p, source, end);
    lemma_advance_fits(p, source, mid);
}

} // verus!
