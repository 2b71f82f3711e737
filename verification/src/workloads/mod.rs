//! Application-like traffic that exercises an allocator. Each workload is deterministic
//! and returns a checksum of what it built.

pub mod arc_broadcast;
pub mod async_server;
pub mod buffer_pool;
pub mod compress_roundtrip;
pub mod csv_pipeline;
pub mod graph_shortest_path;
pub mod hashmap_grow;
pub mod http;
pub mod http_parse;
pub mod json_api;
pub mod log_pipeline;
pub mod lru_cache;
pub mod pattern;
pub mod records_sort;
pub mod regex_search;
pub mod shard_aggregator;
pub mod text;
pub mod text_index;
pub mod thread_pool_jobs;
pub mod toml_config;
pub mod totals;
pub mod vec_growth_log;
pub mod vecdeque_events;
pub mod word_count;

use vstd::prelude::*;

verus! {

/// The kinds of traffic.
#[derive(Clone, Copy, Debug, PartialEq, Eq, Structural)]
pub enum Kind {
    WordCount,
    VecGrowthLog,
    HashmapGrow,
    VecdequeEvents,
    TextIndex,
    LruCache,
    RecordsSort,
    GraphShortestPath,
    JsonApi,
    RegexSearch,
    HttpParse,
    CsvPipeline,
    CompressRoundtrip,
    TomlConfig,
    AsyncServer,
    ThreadPoolJobs,
    LogPipeline,
    ShardAggregator,
    BufferPool,
    ArcBroadcast,
}

/// One kind of traffic: its name, how many elements it handles, and how it runs.
#[derive(Clone, Copy, Debug, PartialEq, Eq, Structural)]
pub struct Workload {
    pub kind: Kind,
}

/// The name of a kind.
pub open spec fn name_of(kind: Kind) -> Seq<char> {
    match kind {
        Kind::WordCount => "word_count"@,
        Kind::VecGrowthLog => "vec_growth_log"@,
        Kind::HashmapGrow => "hashmap_grow"@,
        Kind::VecdequeEvents => "vecdeque_events"@,
        Kind::TextIndex => "text_index"@,
        Kind::LruCache => "lru_cache"@,
        Kind::RecordsSort => "records_sort"@,
        Kind::GraphShortestPath => "graph_shortest_path"@,
        Kind::JsonApi => "json_api"@,
        Kind::RegexSearch => "regex_search"@,
        Kind::HttpParse => "http_parse"@,
        Kind::CsvPipeline => "csv_pipeline"@,
        Kind::CompressRoundtrip => "compress_roundtrip"@,
        Kind::TomlConfig => "toml_config"@,
        Kind::AsyncServer => "async_server"@,
        Kind::ThreadPoolJobs => "thread_pool_jobs"@,
        Kind::LogPipeline => "log_pipeline"@,
        Kind::ShardAggregator => "shard_aggregator"@,
        Kind::BufferPool => "buffer_pool"@,
        Kind::ArcBroadcast => "arc_broadcast"@,
    }
}

/// How many elements a kind handles.
pub open spec fn elements_of(kind: Kind) -> usize {
    match kind {
        Kind::WordCount => word_count::ELEMENTS,
        Kind::VecGrowthLog => vec_growth_log::ELEMENTS,
        Kind::HashmapGrow => hashmap_grow::ELEMENTS,
        Kind::VecdequeEvents => vecdeque_events::ELEMENTS,
        Kind::TextIndex => text_index::ELEMENTS,
        Kind::LruCache => lru_cache::ELEMENTS,
        Kind::RecordsSort => records_sort::ELEMENTS,
        Kind::GraphShortestPath => graph_shortest_path::ELEMENTS,
        Kind::JsonApi => json_api::ELEMENTS,
        Kind::RegexSearch => regex_search::ELEMENTS,
        Kind::HttpParse => http_parse::ELEMENTS,
        Kind::CsvPipeline => csv_pipeline::ELEMENTS,
        Kind::CompressRoundtrip => compress_roundtrip::ELEMENTS,
        Kind::TomlConfig => toml_config::ELEMENTS,
        Kind::AsyncServer => async_server::ELEMENTS,
        Kind::ThreadPoolJobs => thread_pool_jobs::ELEMENTS,
        Kind::LogPipeline => log_pipeline::ELEMENTS,
        Kind::ShardAggregator => shard_aggregator::ELEMENTS,
        Kind::BufferPool => buffer_pool::ELEMENTS,
        Kind::ArcBroadcast => arc_broadcast::ELEMENTS,
    }
}

/// `checksum` is one that a kind may return.
pub open spec fn is_checksum_of(kind: Kind, checksum: usize) -> bool {
    match kind {
        Kind::WordCount => word_count::is_checksum(checksum),
        Kind::VecGrowthLog => vec_growth_log::is_checksum(checksum),
        Kind::HashmapGrow => hashmap_grow::is_checksum(checksum),
        Kind::VecdequeEvents => vecdeque_events::is_checksum(checksum),
        Kind::TextIndex => text_index::is_checksum(checksum),
        Kind::LruCache => lru_cache::is_checksum(checksum),
        Kind::RecordsSort => records_sort::is_checksum(checksum),
        Kind::GraphShortestPath => graph_shortest_path::is_checksum(checksum),
        Kind::JsonApi => json_api::is_checksum(checksum),
        Kind::RegexSearch => regex_search::is_checksum(checksum),
        Kind::HttpParse => http_parse::is_checksum(checksum),
        Kind::CsvPipeline => csv_pipeline::is_checksum(checksum),
        Kind::CompressRoundtrip => compress_roundtrip::is_checksum(checksum),
        Kind::TomlConfig => toml_config::is_checksum(checksum),
        Kind::AsyncServer => async_server::is_checksum(checksum),
        Kind::ThreadPoolJobs => thread_pool_jobs::is_checksum(checksum),
        Kind::LogPipeline => log_pipeline::is_checksum(checksum),
        Kind::ShardAggregator => shard_aggregator::is_checksum(checksum),
        Kind::BufferPool => buffer_pool::is_checksum(checksum),
        Kind::ArcBroadcast => arc_broadcast::is_checksum(checksum),
    }
}

impl Workload {
    pub fn new(kind: Kind) -> (workload: Self)
        ensures
            workload.kind == kind,
    {
        Self { kind }
    }

    #[must_use]
    pub fn name(self) -> (name: &'static str)
        ensures
            name@ == name_of(self.kind),
    {
        match self.kind {
            Kind::WordCount => "word_count",
            Kind::VecGrowthLog => "vec_growth_log",
            Kind::HashmapGrow => "hashmap_grow",
            Kind::VecdequeEvents => "vecdeque_events",
            Kind::TextIndex => "text_index",
            Kind::LruCache => "lru_cache",
            Kind::RecordsSort => "records_sort",
            Kind::GraphShortestPath => "graph_shortest_path",
            Kind::JsonApi => "json_api",
            Kind::RegexSearch => "regex_search",
            Kind::HttpParse => "http_parse",
            Kind::CsvPipeline => "csv_pipeline",
            Kind::CompressRoundtrip => "compress_roundtrip",
            Kind::TomlConfig => "toml_config",
            Kind::AsyncServer => "async_server",
            Kind::ThreadPoolJobs => "thread_pool_jobs",
            Kind::LogPipeline => "log_pipeline",
            Kind::ShardAggregator => "shard_aggregator",
            Kind::BufferPool => "buffer_pool",
            Kind::ArcBroadcast => "arc_broadcast",
        }
    }

    #[must_use]
    pub fn elements(self) -> (elements: usize)
        ensures
            elements == elements_of(self.kind),
    {
        match self.kind {
            Kind::WordCount => word_count::ELEMENTS,
            Kind::VecGrowthLog => vec_growth_log::ELEMENTS,
            Kind::HashmapGrow => hashmap_grow::ELEMENTS,
            Kind::VecdequeEvents => vecdeque_events::ELEMENTS,
            Kind::TextIndex => text_index::ELEMENTS,
            Kind::LruCache => lru_cache::ELEMENTS,
            Kind::RecordsSort => records_sort::ELEMENTS,
            Kind::GraphShortestPath => graph_shortest_path::ELEMENTS,
            Kind::JsonApi => json_api::ELEMENTS,
            Kind::RegexSearch => regex_search::ELEMENTS,
            Kind::HttpParse => http_parse::ELEMENTS,
            Kind::CsvPipeline => csv_pipeline::ELEMENTS,
            Kind::CompressRoundtrip => compress_roundtrip::ELEMENTS,
            Kind::TomlConfig => toml_config::ELEMENTS,
            Kind::AsyncServer => async_server::ELEMENTS,
            Kind::ThreadPoolJobs => thread_pool_jobs::ELEMENTS,
            Kind::LogPipeline => log_pipeline::ELEMENTS,
            Kind::ShardAggregator => shard_aggregator::ELEMENTS,
            Kind::BufferPool => buffer_pool::ELEMENTS,
            Kind::ArcBroadcast => arc_broadcast::ELEMENTS,
        }
    }

    #[must_use]
    pub fn run(self) -> (checksum: usize)
        ensures
            is_checksum_of(self.kind, checksum),
    {
        match self.kind {
            Kind::WordCount => word_count::run(),
            Kind::VecGrowthLog => vec_growth_log::run(),
            Kind::HashmapGrow => hashmap_grow::run(),
            Kind::VecdequeEvents => vecdeque_events::run(),
            Kind::TextIndex => text_index::run(),
            Kind::LruCache => lru_cache::run(),
            Kind::RecordsSort => records_sort::run(),
            Kind::GraphShortestPath => graph_shortest_path::run(),
            Kind::JsonApi => json_api::run(),
            Kind::RegexSearch => regex_search::run(),
            Kind::HttpParse => http_parse::run(),
            Kind::CsvPipeline => csv_pipeline::run(),
            Kind::CompressRoundtrip => compress_roundtrip::run(),
            Kind::TomlConfig => toml_config::run(),
            Kind::AsyncServer => async_server::run(),
            Kind::ThreadPoolJobs => thread_pool_jobs::run(),
            Kind::LogPipeline => log_pipeline::run(),
            Kind::ShardAggregator => shard_aggregator::run(),
            Kind::BufferPool => buffer_pool::run(),
            Kind::ArcBroadcast => arc_broadcast::run(),
        }
    }
}

/// All kinds, in order.
pub open spec fn kinds() -> Seq<Kind> {
    seq![
        Kind::WordCount,
        Kind::VecGrowthLog,
        Kind::HashmapGrow,
        Kind::VecdequeEvents,
        Kind::TextIndex,
        Kind::LruCache,
        Kind::RecordsSort,
        Kind::GraphShortestPath,
        Kind::JsonApi,
        Kind::RegexSearch,
        Kind::HttpParse,
        Kind::CsvPipeline,
        Kind::CompressRoundtrip,
        Kind::TomlConfig,
        Kind::AsyncServer,
        Kind::ThreadPoolJobs,
        Kind::LogPipeline,
        Kind::ShardAggregator,
        Kind::BufferPool,
        Kind::ArcBroadcast,
    ]
}

/// All workloads, in order.
pub fn workloads() -> (all: Vec<Workload>)
    ensures
        all@ == kinds().map_values(|kind: Kind| Workload { kind }),
{
    let mut all: Vec<Workload> = Vec::new();
    all.push(Workload::new(Kind::WordCount));
    all.push(Workload::new(Kind::VecGrowthLog));
    all.push(Workload::new(Kind::HashmapGrow));
    all.push(Workload::new(Kind::VecdequeEvents));
    all.push(Workload::new(Kind::TextIndex));
    all.push(Workload::new(Kind::LruCache));
    all.push(Workload::new(Kind::RecordsSort));
    all.push(Workload::new(Kind::GraphShortestPath));
    all.push(Workload::new(Kind::JsonApi));
    all.push(Workload::new(Kind::RegexSearch));
    all.push(Workload::new(Kind::HttpParse));
    all.push(Workload::new(Kind::CsvPipeline));
    all.push(Workload::new(Kind::CompressRoundtrip));
    all.push(Workload::new(Kind::TomlConfig));
    all.push(Workload::new(Kind::AsyncServer));
    all.push(Workload::new(Kind::ThreadPoolJobs));
    all.push(Workload::new(Kind::LogPipeline));
    all.push(Workload::new(Kind::ShardAggregator));
    all.push(Workload::new(Kind::BufferPool));
    all.push(Workload::new(Kind::ArcBroadcast));
    assert(all@ =~= kinds().map_values(|kind: Kind| Workload { kind }));
    all
}

/// Every kind is among the workloads.
pub proof fn law_every_kind_is_listed(kind: Kind)
    ensures
        kinds().contains(kind),
{
    let all = kinds();
    match kind {
        Kind::WordCount => {
            assert(all[0] == kind);
        },
        Kind::VecGrowthLog => {
            assert(all[1] == kind);
        },
        Kind::HashmapGrow => {
            assert(all[2] == kind);
        },
        Kind::VecdequeEvents => {
            assert(all[3] == kind);
        },
        Kind::TextIndex => {
            assert(all[4] == kind);
        },
        Kind::LruCache => {
            assert(all[5] == kind);
        },
        Kind::RecordsSort => {
            assert(all[6] == kind);
        },
        Kind::GraphShortestPath => {
            assert(all[7] == kind);
        },
        Kind::JsonApi => {
            assert(all[8] == kind);
        },
        Kind::RegexSearch => {
            assert(all[9] == kind);
        },
        Kind::HttpParse => {
            assert(all[10] == kind);
        },
        Kind::CsvPipeline => {
            assert(all[11] == kind);
        },
        Kind::CompressRoundtrip => {
            assert(all[12] == kind);
        },
        Kind::TomlConfig => {
            assert(all[13] == kind);
        },
        Kind::AsyncServer => {
            assert(all[14] == kind);
        },
        Kind::ThreadPoolJobs => {
            assert(all[15] == kind);
        },
        Kind::LogPipeline => {
            assert(all[16] == kind);
        },
        Kind::ShardAggregator => {
            assert(all[17] == kind);
        },
        Kind::BufferPool => {
            assert(all[18] == kind);
        },
        Kind::ArcBroadcast => {
            assert(all[19] == kind);
        },
    }
}

} // verus!
