//! The book of playback sources: which source plays for which sound event.
//!
//! A source stands here as its place in the list and the event it is bound
//! to. The device's own handle of the source is no part of the book.

use vstd::prelude::*;

verus! {

pub type SoundEventId = u64;

/// An index to a source, with the event it was bound to when it was lent.
#[derive(Debug, Clone, Copy)]
pub struct SoundSourceLoan {
    pub source_id: usize,
    pub event_id: SoundEventId,
    pub streaming: bool,
}

/// A source found again from its loan: a static one or a streaming one, at
/// its place in the list.
#[derive(Debug, Clone, Copy, PartialEq, Eq)]
pub enum CombinedSource {
    Static(usize),
    Streaming(usize),
}

/// Whether the binding at `at` is the first free one.
pub open spec fn first_free(bindings: Seq<Option<SoundEventId>>, at: int) -> bool {
    &&& 0 <= at < bindings.len()
    &&& bindings[at] is None
    &&& forall|n: int| 0 <= n < at ==> bindings[n] is Some
}

/// Whether no binding is free.
pub open spec fn none_free(bindings: Seq<Option<SoundEventId>>) -> bool {
    forall|n: int| 0 <= n < bindings.len() ==> bindings[n] is Some
}

/// How many bindings are free.
pub open spec fn free_count(bindings: Seq<Option<SoundEventId>>) -> nat
    decreases bindings.len(),
{
    if bindings.len() == 0 {
        0
    } else if bindings.last() is None {
        free_count(bindings.drop_last()) + 1
    } else {
        free_count(bindings.drop_last())
    }
}

/// The bindings once the sources that have stopped are let go.
pub open spec fn settled(bindings: Seq<Option<SoundEventId>>, stopped: Seq<bool>) -> Seq<
    Option<SoundEventId>,
> {
    Seq::new(
        bindings.len(),
        |n: int|
            if bindings[n] is Some && stopped[n] {
                None
            } else {
                bindings[n]
            },
    )
}

/// The first free binding of a list.
fn next_free_idx(bindings: &Vec<Option<SoundEventId>>) -> (found: Option<usize>)
    ensures
        match found {
            Some(at) => first_free(bindings@, at as int),
            None => none_free(bindings@),
        },
{
    let len = bindings.len();
    let mut i: usize = 0;
    while i < len
        invariant
            len == bindings.len(),
            0 <= i <= len,
            forall|n: int| 0 <= n < i ==> bindings[n] is Some,
        decreases len - i,
    {
        if bindings[i].is_none() {
            return Some(i);
        }
        i = i + 1;
    }
    None
}

/// Lets go of the bound sources that have stopped, and counts the free ones.
fn settle(bindings: &mut Vec<Option<SoundEventId>>, stopped: &Vec<bool>) -> (available: u32)
    requires
        stopped.len() == old(bindings).len(),
        old(bindings).len() <= u32::MAX,
    ensures
        final(bindings)@ == settled(old(bindings)@, stopped@),
        available == free_count(final(bindings)@),
{
    let ghost before = bindings@;
    let mut available: u32 = 0;
    let mut i: usize = 0;
    while i < bindings.len()
        invariant
            stopped.len() == bindings.len() == before.len() <= u32::MAX,
            0 <= i <= bindings.len(),
            forall|n: int| 0 <= n < i ==> bindings@[n] == settled(before, stopped@)[n],
            forall|n: int| i <= n < bindings.len() ==> bindings@[n] == before[n],
            available == free_count(bindings@.take(i as int)),
            available <= i,
        decreases bindings.len() - i,
    {
        let ghost counted = bindings@.take(i as int);
        if bindings[i].is_some() && stopped[i] {
            bindings[i] = None;
        }
        proof {
            let seen = bindings@.take(i + 1);
            assert(bindings@.take(i as int) =~= counted);
            assert(seen.drop_last() =~= counted);
            assert(seen.last() == bindings@[i as int]);
        }
        if bindings[i].is_none() {
            available = available + 1;
        }
        i = i + 1;
    }
    proof {
        assert(bindings@.take(bindings.len() as int) =~= bindings@);
        assert(bindings@ =~= settled(before, stopped@));
    }
    available
}

/// The sources of the device, static and streaming, each with the event it
/// is bound to, and the number of the last event.
pub struct Sources {
    pub next_event: SoundEventId,
    pub sources: Vec<Option<SoundEventId>>,
    pub streaming: Vec<Option<SoundEventId>>,
}

impl Sources {
    /// Whether the loan names a source of the list it is for.
    pub open spec fn in_range(&self, loan: SoundSourceLoan) -> bool {
        if loan.streaming {
            loan.source_id < self.streaming.len()
        } else {
            loan.source_id < self.sources.len()
        }
    }

    /// Whether the source of the loan is still bound to the loan's event.
    pub open spec fn valid(&self, loan: SoundSourceLoan) -> bool {
        if loan.streaming {
            self.streaming[loan.source_id as int] == Some(loan.event_id)
        } else {
            self.sources[loan.source_id as int] == Some(loan.event_id)
        }
    }

    /// Whether the source is one of the book.
    pub open spec fn has(&self, source: CombinedSource) -> bool {
        match source {
            CombinedSource::Static(at) => at < self.sources.len(),
            CombinedSource::Streaming(at) => at < self.streaming.len(),
        }
    }

    /// The book with one binding changed.
    pub open spec fn bound(&self, source: CombinedSource, binding: Option<SoundEventId>) -> (
        Seq<Option<SoundEventId>>,
        Seq<Option<SoundEventId>>,
    ) {
        match source {
            CombinedSource::Static(at) => (
                self.sources@.update(at as int, binding),
                self.streaming@,
            ),
            CombinedSource::Streaming(at) => (
                self.sources@,
                self.streaming@.update(at as int, binding),
            ),
        }
    }

    /// A book of as many static and streaming sources, all free.
    pub fn create(static_count: usize, streaming_count: usize) -> (book: Sources)
        ensures
            book.next_event == 0,
            book.sources@ == Seq::new(static_count as nat, |n: int| None::<SoundEventId>),
            book.streaming@ == Seq::new(streaming_count as nat, |n: int| None::<SoundEventId>),
    {
        let mut sources: Vec<Option<SoundEventId>> = Vec::new();
        let mut streaming: Vec<Option<SoundEventId>> = Vec::new();
        let mut i: usize = 0;
        while i < static_count
            invariant
                0 <= i <= static_count,
                sources@ == Seq::new(i as nat, |n: int| None::<SoundEventId>),
            decreases static_count - i,
        {
            sources.push(None);
            i = i + 1;
            assert(sources@ =~= Seq::new(i as nat, |n: int| None::<SoundEventId>));
        }
        let mut k: usize = 0;
        while k < streaming_count
            invariant
                0 <= k <= streaming_count,
                streaming@ == Seq::new(k as nat, |n: int| None::<SoundEventId>),
            decreases streaming_count - k,
        {
            streaming.push(None);
            k = k + 1;
            assert(streaming@ =~= Seq::new(k as nat, |n: int| None::<SoundEventId>));
        }
        Sources { next_event: 0, sources, streaming }
    }

    /// Counts the events up by one and returns the new number.
    pub fn next_event_id(&mut self) -> (id: SoundEventId)
        requires
            old(self).next_event < u64::MAX,
        ensures
            id == old(self).next_event + 1,
            final(self).next_event == id,
            final(self).sources == old(self).sources,
            final(self).streaming == old(self).streaming,
    {
        self.next_event = self.next_event + 1;
        self.next_event
    }

    /// The first static source that is free.
    pub fn next_free_static_idx(&self) -> (found: Option<usize>)
        ensures
            match found {
                Some(at) => first_free(self.sources@, at as int),
                None => none_free(self.sources@),
            },
    {
        next_free_idx(&self.sources)
    }

    /// A loan of the first static source that is free, under a new event
    /// number. The number is used up also where no source is free. The
    /// source is bound only once the event is assigned to it.
    pub fn loan_next_free_static(&mut self) -> (loan: Option<SoundSourceLoan>)
        requires
            old(self).next_event < u64::MAX,
        ensures
            final(self).next_event == old(self).next_event + 1,
            final(self).sources == old(self).sources,
            final(self).streaming == old(self).streaming,
            match loan {
                Some(lent) => first_free(old(self).sources@, lent.source_id as int) && lent.event_id
                    == old(self).next_event + 1 && !lent.streaming,
                None => none_free(old(self).sources@),
            },
    {
        let event_id = self.next_event_id();
        match next_free_idx(&self.sources) {
            Some(idx) => Some(SoundSourceLoan { source_id: idx, event_id, streaming: false }),
            None => None,
        }
    }

    /// A loan of the first streaming source that is free, in the same way.
    pub fn loan_next_free_streaming(&mut self) -> (loan: Option<SoundSourceLoan>)
        requires
            old(self).next_event < u64::MAX,
        ensures
            final(self).next_event == old(self).next_event + 1,
            final(self).sources == old(self).sources,
            final(self).streaming == old(self).streaming,
            match loan {
                Some(lent) => first_free(old(self).streaming@, lent.source_id as int) && lent.event_id
                    == old(self).next_event + 1 && lent.streaming,
                None => none_free(old(self).streaming@),
            },
    {
        let event_id = self.next_event_id();
        match next_free_idx(&self.streaming) {
            Some(idx) => Some(SoundSourceLoan { source_id: idx, event_id, streaming: true }),
            None => None,
        }
    }

    /// The source of a loan, if it is still bound to the loan's event.
    pub fn for_loan(&self, loan: SoundSourceLoan) -> (source: Option<CombinedSource>)
        requires
            self.in_range(loan),
        ensures
            source is Some <==> self.valid(loan),
            source matches Some(found) ==> found == if loan.streaming {
                CombinedSource::Streaming(loan.source_id)
            } else {
                CombinedSource::Static(loan.source_id)
            },
    {
        if loan.streaming {
            match self.streaming[loan.source_id] {
                Some(event_id) => if event_id == loan.event_id {
                    Some(CombinedSource::Streaming(loan.source_id))
                } else {
                    None
                },
                None => None,
            }
        } else {
            match self.sources[loan.source_id] {
                Some(event_id) => if event_id == loan.event_id {
                    Some(CombinedSource::Static(loan.source_id))
                } else {
                    None
                },
                None => None,
            }
        }
    }

    /// Binds a source to an event.
    pub fn assign_event(&mut self, source: CombinedSource, event_id: SoundEventId)
        requires
            old(self).has(source),
        ensures
            (final(self).sources@, final(self).streaming@) == old(self).bound(
                source,
                Some(event_id),
            ),
            final(self).next_event == old(self).next_event,
    {
        match source {
            CombinedSource::Static(at) => {
                self.sources[at] = Some(event_id);
            },
            CombinedSource::Streaming(at) => {
                self.streaming[at] = Some(event_id);
            },
        }
    }

    /// Lets a source go.
    pub fn clean(&mut self, source: CombinedSource)
        requires
            old(self).has(source),
        ensures
            (final(self).sources@, final(self).streaming@) == old(self).bound(source, None),
            final(self).next_event == old(self).next_event,
    {
        match source {
            CombinedSource::Static(at) => {
                self.sources[at] = None;
            },
            CombinedSource::Streaming(at) => {
                self.streaming[at] = None;
            },
        }
    }

    /// Lets every source go.
    pub fn purge(&mut self)
        ensures
            final(self).sources@.len() == old(self).sources@.len(),
            final(self).streaming@.len() == old(self).streaming@.len(),
            none_bound(final(self).sources@),
            none_bound(final(self).streaming@),
            final(self).next_event == old(self).next_event,
    {
        let mut i: usize = 0;
        while i < self.sources.len()
            invariant
                0 <= i <= self.sources.len(),
                self.sources.len() == old(self).sources.len(),
                self.streaming == old(self).streaming,
                self.next_event == old(self).next_event,
                forall|n: int| 0 <= n < i ==> self.sources@[n] is None,
            decreases self.sources.len() - i,
        {
            self.sources[i] = None;
            i = i + 1;
        }
        let mut k: usize = 0;
        while k < self.streaming.len()
            invariant
                0 <= k <= self.streaming.len(),
                self.streaming.len() == old(self).streaming.len(),
                self.sources.len() == old(self).sources.len(),
                self.next_event == old(self).next_event,
                none_bound(self.sources@),
                forall|n: int| 0 <= n < k ==> self.streaming@[n] is None,
            decreases self.streaming.len() - k,
        {
            self.streaming[k] = None;
            k = k + 1;
        }
    }

    /// Brings the book up to date with the device: every bound source that
    /// has stopped is let go. Returns how many static and how many streaming
    /// sources are free afterwards.
    pub fn check_bindings(&mut self, stopped: &Vec<bool>, streaming_stopped: &Vec<bool>) -> (available:
        (u32, u32))
        requires
            stopped.len() == old(self).sources.len() <= u32::MAX,
            streaming_stopped.len() == old(self).streaming.len() <= u32::MAX,
        ensures
            final(self).sources@ == settled(old(self).sources@, stopped@),
            final(self).streaming@ == settled(old(self).streaming@, streaming_stopped@),
            final(self).next_event == old(self).next_event,
            available.0 == free_count(final(self).sources@),
            available.1 == free_count(final(self).streaming@),
    {
        let available_sources = settle(&mut self.sources, stopped);
        let available_streaming_sources = settle(&mut self.streaming, streaming_stopped);
        (available_sources, available_streaming_sources)
    }
}

/// Whether every binding is free.
pub open spec fn none_bound(bindings: Seq<Option<SoundEventId>>) -> bool {
    forall|n: int| 0 <= n < bindings.len() ==> bindings[n] is None
}

} // verus!
