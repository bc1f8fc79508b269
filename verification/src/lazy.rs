//! Merge of sources that are pulled on demand and may never end.
//!
//! A source of this kind is anything that gives its wire events one by one.
//! The scheduler keeps the next event of each source at hand, so that it
//! can tell which source is due without pulling twice.

use crate::gen::WireEvent;
use crate::merge::{comes_first, select};
use vstd::prelude::*;

verus! {

/// A producer of wire events. It gives its events in the order of time and,
/// once it has given `None`, is not asked again.
pub trait EventGenerator {
    /// Whether the producer, as it is, can give `event` when it is asked
    /// next. A producer whose `next_event` is proved says here what it
    /// gives. Of any other producer nothing is claimed: unless it is stated
    /// otherwise, everything is possible.
    open spec fn gives(&self, event: Option<WireEvent>) -> bool {
        true
    }

    /// The next wire event, or `None` if there is none left.
    fn next_event(&mut self) -> (event: Option<WireEvent>)
        ensures
            old(self).gives(event),
    ;
}

impl EventGenerator for Box<dyn EventGenerator> {
    /// A boxed producer can give what the producer in the box can give.
    open spec fn gives(&self, event: Option<WireEvent>) -> bool {
        (**self).gives(event)
    }

    /// The next wire event of the boxed producer.
    fn next_event(&mut self) -> (event: Option<WireEvent>) {
        (**self).next_event()
    }
}

/// The merge scheduler for sources that are pulled on demand. It holds the
/// sources that still have events, in the order in which they were
/// registered, each behind its next event.
pub struct LazyGenerator<G> {
    heads: Vec<WireEvent>,
    sources: Vec<G>,
}

impl<G> View for LazyGenerator<G> {
    type V = Seq<WireEvent>;

    /// The next event of each source.
    closed spec fn view(&self) -> Seq<WireEvent> {
        self.heads@
    }
}

impl<G> LazyGenerator<G> {
    #[verifier::type_invariant]
    spec fn one_head_each(self) -> bool {
        self.heads@.len() == self.sources@.len()
    }

    /// The sources, in the order in which they were registered. Source `k`
    /// is the one that gave event `k` of the view and that will be asked for
    /// what follows it.
    pub closed spec fn sources(&self) -> Seq<G> {
        self.sources@
    }
}

impl<G: EventGenerator> LazyGenerator<G> {
    /// A scheduler without sources.
    pub fn new() -> (generator: LazyGenerator<G>)
        ensures
            generator@ == Seq::<WireEvent>::empty(),
            generator.sources() == Seq::<G>::empty(),
    {
        LazyGenerator { heads: Vec::new(), sources: Vec::new() }
    }

    /// Whether no source is left.
    pub fn is_exhausted(&self) -> (exhausted: bool)
        ensures
            exhausted == (self@.len() == 0),
            self@.len() == self.sources().len(),
    {
        proof {
            use_type_invariant(self);
        }
        self.heads.len() == 0
    }

    /// Registers `source`, whose first event is `first`, behind the sources
    /// that are there. A source without a first event is discarded.
    pub fn register(&mut self, source: G, first: Option<WireEvent>)
        ensures
            final(self)@ == match first {
                Some(event) => old(self)@.push(event),
                None => old(self)@,
            },
            final(self).sources() == match first {
                Some(event) => old(self).sources().push(source),
                None => old(self).sources(),
            },
    {
        proof {
            use_type_invariant(&*self);
        }
        if let Some(event) = first {
            let mut taken = LazyGenerator::new();
            core::mem::swap(self, &mut taken);
            proof {
                use_type_invariant(&taken);
            }
            let LazyGenerator { heads, sources } = taken;
            let mut heads = heads;
            let mut sources = sources;
            heads.push(event);
            sources.push(source);
            *self = LazyGenerator { heads, sources };
        }
    }

    /// Registers a source behind those that are there, after pulling its
    /// first event. A source without events is discarded. A source that is
    /// kept stands last, as the pull has left it.
    pub fn add_generator(&mut self, source: G)
        ensures
            exists|first: Option<WireEvent>|
                #![trigger source.gives(first)]
                {
                    &&& source.gives(first)
                    &&& final(self)@ == match first {
                        Some(event) => old(self)@.push(event),
                        None => old(self)@,
                    }
                    &&& match first {
                        Some(event) => final(self).sources().len() == old(self).sources().len() + 1
                            && final(self).sources().drop_last() == old(self).sources(),
                        None => final(self).sources() == old(self).sources(),
                    }
                },
    {
        let ghost before = self.sources();
        let mut source = source;
        let first = source.next_event();
        self.register(source, first);
        proof {
            if first is Some {
                assert(self.sources().drop_last() =~= before);
            }
        }
    }

    /// The source that is due: the one whose next event has the least time,
    /// and of several such the one that was registered first.
    pub fn due(&self) -> (choice: Option<usize>)
        ensures
            match choice {
                None => self@.len() == 0,
                Some(i) => comes_first(self@, i as int) && i < self.sources().len(),
            },
    {
        proof {
            use_type_invariant(self);
        }
        select(self.heads.as_slice())
    }

    /// Takes the next event of source `i`, which is due, and puts
    /// `following`, the event that the source gave after it, in its place.
    /// A source that gave no further event is dropped; the other sources
    /// stay where they are.
    pub fn advance(&mut self, i: usize, following: Option<WireEvent>) -> (event: WireEvent)
        requires
            i < old(self)@.len(),
        ensures
            event == old(self)@[i as int],
            final(self)@ == match following {
                Some(next) => old(self)@.update(i as int, next),
                None => old(self)@.remove(i as int),
            },
            final(self).sources() == match following {
                Some(next) => old(self).sources(),
                None => old(self).sources().remove(i as int),
            },
    {
        proof {
            use_type_invariant(&*self);
        }
        let mut taken = LazyGenerator::new();
        core::mem::swap(self, &mut taken);
        proof {
            use_type_invariant(&taken);
        }
        let LazyGenerator { heads, sources } = taken;
        let mut heads = heads;
        let mut sources = sources;
        let event = heads[i];
        match following {
            Some(next) => {
                heads[i] = next;
            },
            None => {
                heads.remove(i);
                sources.remove(i);
            },
        }
        *self = LazyGenerator { heads, sources };
        event
    }

    /// Takes the next event of the merged stream: the event of the source
    /// that is due. That source is pulled once to see what follows, and what
    /// it gives takes the place of the event; a source that gives nothing
    /// more is dropped. The other sources are not touched.
    pub fn next(&mut self) -> (event: Option<WireEvent>)
        ensures
            ({
                let heads = old(self)@;
                let sources = old(self).sources();
                let left = final(self).sources();
                match event {
                    None => heads.len() == 0 && final(self)@ == heads && left == sources,
                    Some(e) => exists|i: int, following: Option<WireEvent>|
                        #![trigger comes_first(heads, i), sources[i].gives(following)]
                        {
                            &&& comes_first(heads, i)
                            &&& e == heads[i]
                            &&& sources[i].gives(following)
                            &&& final(self)@ == match following {
                                Some(next) => heads.update(i, next),
                                None => heads.remove(i),
                            }
                            &&& match following {
                                Some(next) => {
                                    &&& left.len() == sources.len()
                                    &&& forall|k: int|
                                        0 <= k < sources.len() && k != i ==> #[trigger] left[k]
                                            == sources[k]
                                },
                                None => left == sources.remove(i),
                            }
                        },
                }
            }),
    {
        proof {
            use_type_invariant(&*self);
        }
        match self.due() {
            None => None,
            Some(i) => {
                let ghost heads_before = self@;
                let ghost sources_before = self.sources();
                let mut taken = LazyGenerator::new();
                core::mem::swap(self, &mut taken);
                proof {
                    use_type_invariant(&taken);
                }
                let LazyGenerator { heads, sources } = taken;
                let mut sources = sources;
                let following = sources[i].next_event();
                *self = LazyGenerator { heads, sources };
                let event = self.advance(i, following);
                proof {
                    assert(comes_first(heads_before, i as int));
                    assert(sources_before[i as int].gives(following));
                    if following is None {
                        assert(self.sources() =~= sources_before.remove(i as int));
                    }
                }
                Some(event)
            },
        }
    }
}

} // verus!
