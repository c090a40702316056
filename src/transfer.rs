use vstd::prelude::*;

verus! {

/// The size of the buffer that the body is read into.
pub const CHUNK_SIZE: usize = 131072;

/// The total that progress is reported against: the size header's value, or
/// 0 (unknown) where the header is missing or unreadable.
pub fn expected_size(size_header: Option<u64>) -> (r: u64)
    ensures
        r == match size_header {
            Some(n) => n,
            None => 0,
        },
{
    match size_header {
        Some(n) => n,
        None => 0,
    }
}

/// The name of the file that the stream is saved to: `<title>.<extension>`.
pub fn destination_name(title: &[u8], extension: &[u8]) -> (r: Vec<u8>)
    requires
        title@.len() + extension@.len() + 1 <= usize::MAX,
    ensures
        r@ == title@ + seq![46u8] + extension@,
{
    let mut r: Vec<u8> = Vec::new();
    let mut i: usize = 0;
    while i < title.len()
        invariant
            i <= title@.len(),
            r@ == title@.subrange(0, i as int),
        decreases title.len() - i,
    {
        r.push(title[i]);
        i = i + 1;
        assert(r@ =~= title@.subrange(0, i as int));
    }
    r.push(46u8);
    let mut j: usize = 0;
    assert(title@.subrange(0, title@.len() as int) =~= title@);
    while j < extension.len()
        invariant
            j <= extension@.len(),
            r@ == title@ + seq![46u8] + extension@.subrange(0, j as int),
        decreases extension.len() - j,
    {
        r.push(extension[j]);
        j = j + 1;
        assert(r@ =~= title@ + seq![46u8] + extension@.subrange(0, j as int));
    }
    assert(extension@.subrange(0, extension@.len() as int) =~= extension@);
    r
}

/// What the body's reader or the file's writer reported.
#[derive(Debug, Clone, Copy, PartialEq, Eq, Structural)]
pub enum TransferEvent {
    /// A read gave this many bytes; 0 is the end of the body.
    Read(usize),
    /// A read failed.
    ReadFailed,
    /// A write to the file failed.
    WriteFailed,
}

/// What the transfer asks for next.
#[derive(Debug, Clone, Copy, PartialEq, Eq, Structural)]
pub enum TransferAction {
    /// Write the bytes just read, as they are, advance the progress by their
    /// number, and read again.
    Write(usize),
    /// The body has ended; this many bytes were written in all.
    Complete(u64),
    /// The transfer has failed; the file is left as it is.
    Abort,
}

/// The state of one download: bytes written so far and the expected total
/// (0 when unknown).
#[derive(Debug, Clone, Copy, PartialEq, Eq, Structural)]
pub struct Transfer {
    pub expected: u64,
    pub written: u64,
    pub finished: bool,
}

/// The next state and action of a transfer on an event.
pub open spec fn step(t: Transfer, e: TransferEvent) -> (Transfer, TransferAction) {
    if t.finished {
        (t, TransferAction::Abort)
    } else {
        match e {
            TransferEvent::Read(n) => if n == 0 {
                (Transfer { finished: true, ..t }, TransferAction::Complete(t.written))
            } else if t.written + n > u64::MAX {
                (Transfer { finished: true, ..t }, TransferAction::Abort)
            } else {
                (
                    Transfer { written: (t.written + n) as u64, ..t },
                    TransferAction::Write(n),
                )
            },
            _ => (Transfer { finished: true, ..t }, TransferAction::Abort),
        }
    }
}

impl Transfer {
    /// A transfer that has written nothing, against the expected total.
    pub fn new(expected: u64) -> (r: Transfer)
        ensures
            r == (Transfer { expected, written: 0, finished: false }),
    {
        Transfer { expected, written: 0, finished: false }
    }

    /// Takes one event of the body's reader or the file's writer.
    pub fn on_event(&mut self, e: TransferEvent) -> (r: TransferAction)
        ensures
            (*final(self), r) == step(*old(self), e),
    {
        if self.finished {
            return TransferAction::Abort;
        }
        match e {
            TransferEvent::Read(n) => {
                if n == 0 {
                    self.finished = true;
                    TransferAction::Complete(self.written)
                } else if self.written > u64::MAX - n as u64 {
                    self.finished = true;
                    TransferAction::Abort
                } else {
                    self.written = self.written + n as u64;
                    TransferAction::Write(n)
                }
            },
            _ => {
                self.finished = true;
                TransferAction::Abort
            },
        }
    }

    /// Bytes written so far and the total they are reported against.
    pub fn progress(&self) -> (r: (u64, u64))
        ensures
            r == (self.written, self.expected),
    {
        (self.written, self.expected)
    }
}

/// The sum of a list of read lengths.
pub open spec fn total(lens: Seq<nat>) -> nat
    decreases lens.len(),
{
    if lens.len() == 0 {
        0
    } else {
        lens[0] + total(lens.subrange(1, lens.len() as int))
    }
}

/// Reads that each give between 1 and `CHUNK_SIZE` bytes.
pub open spec fn valid_reads(lens: Seq<nat>) -> bool {
    forall|i: int| 0 <= i < lens.len() ==> 0 < #[trigger] lens[i] <= CHUNK_SIZE
}

/// Feeds a transfer one read event per length, in order; gives the final
/// state and the actions.
pub open spec fn run(t: Transfer, lens: Seq<nat>) -> (Transfer, Seq<TransferAction>)
    decreases lens.len(),
{
    if lens.len() == 0 {
        (t, Seq::<TransferAction>::empty())
    } else {
        let (t1, a) = step(t, TransferEvent::Read(lens[0] as usize));
        let (t2, rest) = run(t1, lens.subrange(1, lens.len() as int));
        (t2, seq![a] + rest)
    }
}

proof fn lemma_run_reads(t: Transfer, lens: Seq<nat>)
    requires
        valid_reads(lens),
        !t.finished,
        t.written + total(lens) <= u64::MAX,
    ensures
        run(t, lens).0 == (Transfer { written: (t.written + total(lens)) as u64, ..t }),
        run(t, lens).1.len() == lens.len(),
        forall|i: int|
            0 <= i < lens.len() ==> run(t, lens).1[i] == TransferAction::Write(lens[i] as usize),
    decreases lens.len(),
{
    if lens.len() > 0 {
        let tail = lens.subrange(1, lens.len() as int);
        let t1 = Transfer { written: (t.written + lens[0]) as u64, ..t };
        assert(lens[0] > 0);
        assert(valid_reads(tail)) by {
            assert forall|i: int| 0 <= i < tail.len() implies 0 < #[trigger] tail[i]
                <= CHUNK_SIZE by {
                assert(tail[i] == lens[i + 1]);
            }
        }
        lemma_run_reads(t1, tail);
        let rest = run(t1, tail).1;
        assert forall|i: int| 0 <= i < lens.len() implies run(t, lens).1[i]
            == TransferAction::Write(lens[i] as usize) by {
            if i > 0 {
                assert(run(t, lens).1[i] == rest[i - 1]);
                assert(tail[i - 1] == lens[i]);
            }
        }
    }
}

/// A body read in pieces of any sizes between 1 and `CHUNK_SIZE` bytes, `n`
/// bytes in all (zero, under one buffer, a multiple of it or not): each piece
/// is written as it came, in order, and the end of the body completes the
/// transfer with exactly `n` bytes written. The expected total is kept as it
/// was, also when it is 0 because the size header was missing.
pub proof fn lemma_transfer_writes_whole_body(expected: u64, lens: Seq<nat>, n: nat)
    requires
        valid_reads(lens),
        total(lens) == n,
        n <= u64::MAX,
    ensures
        ({
            let (t, actions) = run(
                Transfer { expected, written: 0, finished: false },
                lens.push(0),
            );
            &&& t == (Transfer { expected, written: n as u64, finished: true })
            &&& actions.len() == lens.len() + 1
            &&& actions.last() == TransferAction::Complete(n as u64)
            &&& forall|i: int|
                0 <= i < lens.len() ==> actions[i] == TransferAction::Write(lens[i] as usize)
        }),
{
    let t0 = Transfer { expected, written: 0, finished: false };
    lemma_run_reads(t0, lens);
    lemma_run_append_end(t0, lens);
}

/// Running a list of lengths followed by one more is running the list, then
/// that one step.
proof fn lemma_run_append_end(t: Transfer, lens: Seq<nat>)
    ensures
        run(t, lens.push(0)).0 == step(run(t, lens).0, TransferEvent::Read(0)).0,
        run(t, lens.push(0)).1 == run(t, lens).1.push(
            step(run(t, lens).0, TransferEvent::Read(0)).1,
        ),
    decreases lens.len(),
{
    if lens.len() == 0 {
        let s = lens.push(0);
        let t1 = step(t, TransferEvent::Read(0)).0;
        assert(s[0] == 0);
        assert(s.subrange(1, 1) =~= Seq::<nat>::empty());
        assert(run(t1, s.subrange(1, 1)) == (t1, Seq::<TransferAction>::empty()));
        assert(lens =~= Seq::<nat>::empty());
        assert(run(t, s).1 =~= Seq::<TransferAction>::empty().push(
            step(t, TransferEvent::Read(0)).1,
        ));
    } else {
        let t1 = step(t, TransferEvent::Read(lens[0] as usize)).0;
        let tail = lens.subrange(1, lens.len() as int);
        lemma_run_append_end(t1, tail);
        assert(lens.push(0).subrange(1, lens.len() as int + 1) =~= tail.push(0));
        let a = step(t, TransferEvent::Read(lens[0] as usize)).1;
        assert(seq![a] + run(t1, tail).1.push(step(run(t1, tail).0, TransferEvent::Read(0)).1)
            =~= (seq![a] + run(t1, tail).1).push(step(run(t1, tail).0, TransferEvent::Read(0)).1));
    }
}

} // verus!
