//! What a run gives back: the captured output, bounded while it is read, and the result of the
//! child.

use vstd::prelude::*;

use crate::error::Error;
use crate::os;
use crate::reexec;
use crate::types::ExecOutput;

verus! {

// ---------------------------------------------------------------------------
// Captured output
// ---------------------------------------------------------------------------

/// The first `max` bytes of an output, or all of it where `max` is 0.
pub open spec fn capped(output: Seq<u8>, max: usize) -> Seq<u8> {
    if max != 0 && output.len() > max {
        output.take(max as int)
    } else {
        output
    }
}

/// Keeps the first `max` bytes (0: all).
pub fn cap(v: Vec<u8>, max: usize) -> (r: Vec<u8>)
    ensures
        r@ == capped(v@, max),
{
    let mut out: Vec<u8> = v;
    if max != 0 && out.len() > max {
        out.truncate(max);
    }
    out
}

/// An output stream as it is read. What goes beyond the limit is read, so that the child does
/// not block, and dropped, so that it takes no memory.
#[derive(Debug)]
pub struct Capture {
    kept: Vec<u8>,
    max: usize,
}

impl Capture {
    #[verifier::type_invariant]
    spec fn bounded(self) -> bool {
        self.max != 0 ==> self.kept@.len() <= self.max
    }

    /// The limit (0: none).
    pub closed spec fn limit(self) -> usize {
        self.max
    }

    /// Nothing read yet.
    pub fn new(max: usize) -> (r: Self)
        ensures
            r@ == Seq::<u8>::empty(),
            r.limit() == max,
    {
        Capture { kept: Vec::new(), max }
    }

    /// Takes what was read next.
    pub fn absorb(&mut self, chunk: &[u8])
        ensures
            final(self)@ == capped(old(self)@ + chunk@, old(self).limit()),
            final(self).limit() == old(self).limit(),
            old(self).limit() != 0 ==> final(self)@.len() <= old(self).limit(),
    {
        proof {
            use_type_invariant(&*self);
        }
        let room: usize = if self.max == 0 {
            chunk.len()
        } else if self.max - self.kept.len() < chunk.len() {
            self.max - self.kept.len()
        } else {
            chunk.len()
        };
        let ghost before = self.kept@;
        let mut kept: Vec<u8> = Vec::new();
        std::mem::swap(&mut kept, &mut self.kept);
        let part: Vec<u8> = os::copy_bytes(chunk, 0, room);
        os::append_bytes(&mut kept, part.as_slice());
        proof {
            let all = before + chunk@;
            if self.max != 0 && all.len() > self.max {
                assert(kept@ =~= all.take(self.max as int));
            } else {
                assert(chunk@.subrange(0, room as int) =~= chunk@);
                assert(kept@ =~= all);
            }
        }
        self.kept = kept;
    }

    /// What was kept.
    pub fn finish(self) -> (r: Vec<u8>)
        ensures
            r@ == self@,
    {
        self.kept
    }
}

impl View for Capture {
    type V = Seq<u8>;

    closed spec fn view(&self) -> Seq<u8> {
        self.kept@
    }
}

/// All that was read, in one piece.
pub open spec fn stream(chunks: Seq<Seq<u8>>) -> Seq<u8>
    decreases chunks.len(),
{
    if chunks.len() == 0 {
        Seq::empty()
    } else {
        stream(chunks.drop_last()) + chunks.last()
    }
}

/// What a capture keeps of a stream that is read in these pieces.
pub open spec fn captured(chunks: Seq<Seq<u8>>, max: usize) -> Seq<u8>
    decreases chunks.len(),
{
    if chunks.len() == 0 {
        Seq::empty()
    } else {
        capped(captured(chunks.drop_last(), max) + chunks.last(), max)
    }
}

/// Cutting while reading gives what cutting at the end would: however the stream is cut into
/// pieces, its first `max` bytes are kept.
pub proof fn capture_keeps_the_front(chunks: Seq<Seq<u8>>, max: usize)
    ensures
        captured(chunks, max) == capped(stream(chunks), max),
    decreases chunks.len(),
{
    if chunks.len() > 0 {
        let before = chunks.drop_last();
        capture_keeps_the_front(before, max);
        let a = stream(before);
        let b = chunks.last();
        if max != 0 && a.len() > max {
            assert((a.take(max as int) + b).take(max as int) =~= (a + b).take(max as int));
            assert(a.take(max as int) + b == captured(before, max) + b);
            if b.len() == 0 {
                assert(a.take(max as int) + b =~= a.take(max as int));
                assert((a + b).take(max as int) =~= a.take(max as int));
            }
        }
    }
}

// ---------------------------------------------------------------------------
// The result
// ---------------------------------------------------------------------------

/// Why the sandbox stopped waiting for the child.
#[derive(Debug, Clone, Copy, PartialEq, Eq, Structural)]
pub enum StopReason {
    /// The child ended by itself.
    Exited,
    /// It took too long.
    Timeout,
    /// The run was cancelled.
    Cancelled,
}

impl StopReason {
    /// Whether the child has to be killed.
    pub fn kills(self) -> (r: bool)
        ensures
            r == (self != StopReason::Exited),
    {
        match self {
            StopReason::Exited => false,
            _ => true,
        }
    }
}

/// The result of a run. Where the child was the helper, its exit codes for failures become
/// errors; any other child may end with the same codes, and they mean nothing then.
pub fn finish_run(
    exit_code: Option<i32>,
    signal: Option<i32>,
    stdout: Capture,
    stderr: Capture,
    reason: StopReason,
    helper_reexec: bool,
) -> (r: Result<ExecOutput, Error>)
    ensures
        r is Err <==> helper_reexec && reexec::helper_failure(exit_code) is Some,
        r matches Err(e) ==> reexec::reports(e, reexec::helper_failure(exit_code).unwrap()),
        r matches Ok(out) ==> {
            &&& out.exit_code == exit_code
            &&& out.signal == signal
            &&& out.stdout@ == stdout@
            &&& out.stderr@ == stderr@
            &&& out.timed_out == (reason == StopReason::Timeout)
        },
{
    if helper_reexec {
        match reexec::classify_helper_exit(exit_code) {
            Some(e) => {
                return Err(e);
            },
            None => {},
        }
    }
    Ok(
        ExecOutput {
            exit_code,
            signal,
            stdout: stdout.finish(),
            stderr: stderr.finish(),
            timed_out: reason == StopReason::Timeout,
        },
    )
}

/// What is kept of an output is its front: all of it without a limit or within it, else exactly
/// as many bytes as the limit says.
pub proof fn capped_output_is_the_front(output: Seq<u8>, max: usize)
    ensures
        capped(output, max).is_prefix_of(output),
        max == 0 || output.len() <= max ==> capped(output, max) == output,
        max != 0 && output.len() > max ==> capped(output, max).len() == max,
{
    assert(output.subrange(0, output.len() as int) =~= output);
}

} // verus!
