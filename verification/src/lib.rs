//! A textual include-directive preprocessor, verified.
//!
//! Given an entry document and search directories, the engine resolves
//! `#pragma once` guards and include directives of both kinds, loads the
//! transitive include set with each physical file parsed exactly once,
//! and replays the loaded graph depth first into an output sink,
//! reporting every consumed file to a tracking sink.  The file system
//! enters as data, a `FileStore`, so that a whole run is a function of
//! its inputs; a host crate performs the reads and probes and may run
//! the parses concurrently, the loader's result being the same in any
//! completion order.

pub mod errors;
pub mod file_store;
pub mod graph;
pub mod laws;
pub mod line_parser;
pub mod node;
pub mod resolve;
pub mod search_paths;
pub mod util;
pub mod writer;

pub use crate::errors::Error;
pub use crate::errors::FileNotFoundError;
pub use crate::errors::ParseError;
pub use crate::search_paths::SearchPaths;
pub use crate::writer::OutputSink;
pub use crate::writer::SourceMappedChunk;
pub use crate::writer::SourceTracker;

use vstd::prelude::*;

use crate::file_store::FileStore;
use crate::graph::loaded_graph_for;
use crate::graph::reaches;
use crate::graph::Parsed;
use crate::graph::ParsedView;
use crate::node::NodeView;
use crate::writer::spec_flatten;
use crate::writer::track_list;

verus! {

/// Runs a whole preprocessing pass: load the transitive include set of
/// `entry_point`, then replay it into `writer` and report every loaded
/// file to `source_tracker`.  On any failure no output is returned.
///
/// The graph the success clause quantifies over is unique up to its entry
/// order, and any two graphs satisfying `loaded_graph_for` on the same
/// inputs flatten to the same bytes (`laws::lemma_schedule_independence`),
/// so the clause pins the output.
pub fn preprocess<S: OutputSink, T: SourceTracker>(
    entry_point: &Vec<u8>,
    search_paths: SearchPaths,
    writer: S,
    source_tracker: &mut T,
    store: &FileStore,
) -> (r: Result<S, Error>)
    ensures
        match r {
            Ok(out) => exists|pv: ParsedView|
                {
                    &&& #[trigger] loaded_graph_for(pv, store@, search_paths@, entry_point@)
                    &&& spec_flatten(pv).cycle is None
                    &&& out.contents() == writer.contents() + spec_flatten(pv).out
                    &&& final(source_tracker).recorded() == old(source_tracker).recorded()
                        + track_list(pv.entries)
                },
            Err(e) => ({
                &&& final(source_tracker).recorded() == old(source_tracker).recorded()
                &&& ({
                    ||| (store@.canon_of(entry_point@) is None && e@
                        == crate::errors::ErrorView::IO(entry_point@))
                    ||| (store@.canon_of(entry_point@) is Some && exists|k: Seq<u8>|
                        reaches(store@, search_paths@, store@.canon_of(entry_point@)->Some_0, k)
                            && #[trigger] crate::node::spec_parse_node(store@, search_paths@, k)
                            == Err::<NodeView, crate::errors::ErrorView>(e@))
                    ||| (exists|pv: ParsedView|
                        {
                            &&& #[trigger] loaded_graph_for(
                                pv,
                                store@,
                                search_paths@,
                                entry_point@,
                            )
                            &&& spec_flatten(pv).cycle matches Some(c) && e@
                                == crate::errors::ErrorView::Cycle(c)
                        })
                })
            }),
        },
{
    let parsed = match Parsed::try_init(entry_point, &search_paths, store) {
        Ok(p) => p,
        Err(e) => {
            return Err(e);
        },
    };
    let mut out_sink = writer;
    match parsed.write(&mut out_sink, source_tracker) {
        Ok(_) => {
            proof {
                assert(loaded_graph_for(parsed@, store@, search_paths@, entry_point@));
            }
            Ok(out_sink)
        },
        Err(e) => {
            proof {
                assert(loaded_graph_for(parsed@, store@, search_paths@, entry_point@));
            }
            Err(e)
        },
    }
}

} // verus!
