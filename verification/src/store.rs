use vstd::prelude::*;

use crate::mapping::{
    MadisonMapping, MappingEntry, BuildError, build_madison_mapping, build_view,
    listings_versions_ascii,
};
use crate::query::{madison_render, lemma_madison_render_format, pkgs_views, filter_view,
    do_madison, table_cells, structure_spec};
use crate::render::line_format_ok;
use crate::types::{Listing, KeyChoice};

verus! {

/// The snapshot store. It starts Uninitialized; the first successful build
/// makes it Ready, and every later successful rebuild replaces the whole
/// snapshot and advances the generation, which the request cache watches.
/// It never returns to Uninitialized.
pub struct MappingStore {
    pub snapshot: Option<MadisonMapping>,
    pub generation: u64,
}

impl MappingStore {
    /// Whatever snapshot is held is well formed.
    pub open spec fn inv(&self) -> bool {
        match self.snapshot {
            Option::Some(m) => m.wf(),
            Option::None => true,
        }
    }

    pub open spec fn is_ready(&self) -> bool {
        self.snapshot is Some
    }

    /// The rows a reader sees: an explicit empty report before the first
    /// successful build.
    pub open spec fn entries_view(&self) -> Seq<MappingEntry> {
        match self.snapshot {
            Option::Some(m) => m.entries@,
            Option::None => Seq::empty(),
        }
    }

    pub fn new() -> (r: Self)
        ensures
            r.inv(),
            !r.is_ready(),
            r.generation == 0,
            r.entries_view() == Seq::<MappingEntry>::empty(),
    {
        MappingStore { snapshot: Option::None, generation: 0 }
    }

    /// The single writer's swap: publishes a freshly built snapshot and
    /// advances the generation. Readers of the old snapshot are unaffected;
    /// the store is Ready from here on.
    pub fn publish(&mut self, m: MadisonMapping)
        requires
            old(self).inv(),
            m.wf(),
            old(self).generation < u64::MAX,
        ensures
            final(self).inv(),
            final(self).is_ready(),
            final(self).generation == old(self).generation + 1,
            final(self).entries_view() == m.entries@,
    {
        self.snapshot = Option::Some(m);
        self.generation = self.generation + 1;
    }
}

/// Answers one request from the current snapshot: the full rendered table,
/// or the empty table while the store is still Uninitialized.
pub fn query_store(store: &MappingStore, packages: Vec<String>, suite: Option<String>) -> (r:
    String)
    requires
        store.inv(),
    ensures
        r@ == madison_render(store.entries_view(), pkgs_views(packages@), filter_view(suite)),
        line_format_ok(r@),
        table_cells(
            structure_spec(store.entries_view(), pkgs_views(packages@), filter_view(suite)),
        ).len() == 0 ==> r@ == seq!['\n'],
{
    match &store.snapshot {
        Option::Some(m) => {
            proof {
                assert(store.entries_view() == m.entries@);
            }
            do_madison(m, packages, suite)
        },
        Option::None => {
            let empty = MadisonMapping::new();
            proof {
                assert(empty.entries@ =~= store.entries_view());
            }
            do_madison(&empty, packages, suite)
        },
    }
}

/// What one tick of the refresh loop observed: the source reported no
/// change, or handed over a fresh listing snapshot, or the check itself
/// failed.
pub enum RefreshEvent {
    NoChange,
    Changed(Vec<Listing>),
    CheckFailed,
}

/// What the tick did to the store.
#[derive(Clone, Copy, PartialEq, Eq, Structural, Debug)]
pub enum RefreshOutcome {
    Unchanged,
    Updated,
    BuildFailed,
}

/// One decision step of the refresh loop. No change and a failed check
/// leave the snapshot exactly as it was — a refresh failure is never fatal.
/// A fresh listing set is rebuilt wholesale and swapped in; a malformed
/// listing aborts that rebuild and the previous snapshot stays.
pub fn refresh_step(store: &mut MappingStore, event: RefreshEvent, choice: KeyChoice) -> (r:
    RefreshOutcome)
    requires
        old(store).inv(),
        old(store).generation < u64::MAX,
    ensures
        final(store).inv(),
        match event {
            RefreshEvent::NoChange => *final(store) == *old(store) && r == RefreshOutcome::Unchanged,
            RefreshEvent::CheckFailed => *final(store) == *old(store) && r
                == RefreshOutcome::Unchanged,
            RefreshEvent::Changed(listings) => {
                let vs = listings@.map_values(|l: Listing| l@);
                if listings_versions_ascii(vs) {
                    &&& r == RefreshOutcome::Updated
                    &&& final(store).is_ready()
                    &&& final(store).generation == old(store).generation + 1
                    &&& crate::mapping::map_of(final(store).entries_view()) == build_view(
                        vs,
                        choice,
                    )
                } else {
                    &&& r == RefreshOutcome::BuildFailed
                    &&& *final(store) == *old(store)
                }
            },
        },
{
    match event {
        RefreshEvent::NoChange => RefreshOutcome::Unchanged,
        RefreshEvent::CheckFailed => RefreshOutcome::Unchanged,
        RefreshEvent::Changed(listings) => {
            match build_madison_mapping(&listings, choice) {
                Result::Ok(m) => {
                    store.publish(m);
                    RefreshOutcome::Updated
                },
                Result::Err(e) => {
                    proof {
                        assert(e == BuildError::MalformedVersion);
                    }
                    RefreshOutcome::BuildFailed
                },
            }
        },
    }
}

} // verus!
