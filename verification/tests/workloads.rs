use runic::rng::TraceRng;
use runic::workloads::arc_broadcast::{message, receive};
use runic::workloads::buffer_pool::{fill_job, run_job, BufferPool};
use runic::workloads::graph_shortest_path::{build_graph, graph_shortest_path, shortest_paths};
use runic::workloads::hashmap_grow::{close_odd, hashmap_grow, open_sessions, probe, stored_len};
use runic::workloads::lru_cache::{lru_cache, LruCache};
use runic::workloads::records_sort::{dedup, draw_records, rank, records_sort};
use runic::workloads::log_pipeline::all_amounts;
use runic::workloads::shard_aggregator::{build_shard, fold_counts};
use runic::workloads::text_index::{text_index, tokenize};
use runic::workloads::thread_pool_jobs::job;
use runic::workloads::totals::Totals;
use runic::workloads::vec_growth_log::{build_log, contains, keep_errors, round_value, vec_growth_log};
use runic::workloads::vecdeque_events::{deliver, vecdeque_events};
use runic::workloads::word_count::{count_words, sort_down, word_count};
use runic::workloads::{arc_broadcast, buffer_pool, shard_aggregator, thread_pool_jobs, workloads};
use std::cmp::Reverse;
use std::collections::{BTreeMap, BinaryHeap, HashMap, VecDeque};

#[test]
fn every_workload_is_listed_with_its_size() {
    let listed: Vec<(&str, usize)> = workloads()
        .into_iter()
        .map(|workload| (workload.name(), workload.elements()))
        .collect();
    assert_eq!(listed.len(), 20);
    assert!(listed.contains(&("word_count", 4 * 4_096)));
    assert!(listed.contains(&("compress_roundtrip", 8 * 256 * 1_024)));
    assert!(listed.contains(&("arc_broadcast", 4 * 256)));
    for (i, (name, _)) in listed.iter().enumerate() {
        assert!(listed[i + 1..].iter().all(|(other, _)| other != name));
    }
}

#[test]
fn words_are_counted_and_ranked() {
    let (rounds, words) = (3, 500);
    let mut checksum = 0_usize;
    for round in 0..rounds {
        let mut rng = TraceRng::new(0x201d_c001_u64 ^ round as u64);
        let mut map: HashMap<String, usize> = HashMap::new();
        for _ in 0..words {
            let span = rng.next_usize(1_024).max(1);
            let rank = rng.next_usize(span);
            *map.entry(format!("w{rank}")).or_insert(0) += 1;
        }
        let tally = count_words(round, words);
        for (rank, count) in tally.iter().enumerate() {
            assert_eq!(*count, map.get(&format!("w{rank}")).copied().unwrap_or(0));
        }
        let mut counts: Vec<usize> = map.values().copied().collect();
        counts.sort_unstable();
        checksum ^= counts.iter().rev().take(16).sum::<usize>();
        checksum ^= map.len();
    }
    assert_eq!(word_count(rounds, words), checksum);
    assert_eq!(sort_down(&vec![2, 9, 4, 9]), [9, 9, 4, 2]);
}

#[test]
fn logs_grow_and_shrink_to_errors() {
    const LEVELS: [&str; 4] = ["DEBUG", "INFO", "WARN", "ERROR"];
    let (rounds, lines) = (2_usize, 600_usize);
    let mut checksum = 0_usize;
    for round in 0..rounds {
        let mut rng = TraceRng::new(0x10c1_9a11_u64 ^ round as u64);
        let mut log: Vec<String> = Vec::new();
        for i in 0..lines {
            let level = LEVELS[rng.next_usize(LEVELS.len())];
            let ts = round * lines + i;
            log.push(format!(
                "t={ts} lvl={level} req={} shard={}",
                i ^ round,
                i % 37
            ));
            if i != 0 && i % 256 == 0 {
                log.shrink_to_fit();
            }
        }
        let (built, bytes) = build_log(round, lines);
        assert_eq!(bytes, log.iter().map(String::len).sum::<usize>());
        for (line, expected) in built.iter().zip(&log) {
            assert_eq!(line, expected.as_bytes());
        }
        log.retain(|line| line.contains("ERROR"));
        let kept = keep_errors(built);
        assert_eq!(kept.len(), log.len());
        assert_eq!(kept.capacity(), log.capacity());
        let value = bytes ^ log.len() ^ log.capacity();
        assert_eq!(round_value(bytes, kept.len(), kept.capacity()), value);
        checksum ^= value;
    }
    assert_eq!(vec_growth_log(rounds, lines), checksum);
    assert!(contains(b"lvl=ERROR", b"ERROR"));
    assert!(!contains(b"lvl=ERRO", b"ERROR"));
    assert!(contains(b"", b""));
}

#[test]
fn sessions_are_probed_and_closed() {
    let (rounds, keys) = (3_usize, 300_usize);
    let mut checksum = 0_usize;
    for round in 0..rounds {
        let mut rng = TraceRng::new(0x5e55_1047_u64 ^ round as u64);
        let mut sessions: HashMap<String, String> = HashMap::new();
        for i in 0..keys {
            sessions.insert(
                format!("sess-{:08x}", i ^ round),
                format!("user={} ttl={}", i % 1_024, (i ^ round) % 8),
            );
        }
        let mut hits = 0_usize;
        for _ in 0..keys {
            let probe = format!("sess-{:08x}", rng.next_usize(keys * 2) ^ round);
            hits += usize::from(sessions.contains_key(&probe));
        }
        for i in (1..keys).step_by(2) {
            sessions.remove(&format!("sess-{:08x}", i ^ round));
        }
        let stored: usize = sessions.values().map(String::len).sum();
        let mut opened = open_sessions(round, keys);
        assert_eq!(opened.len(), keys);
        assert_eq!(probe(&opened, round, keys), hits);
        close_odd(&mut opened, round, keys);
        assert_eq!(opened.len(), sessions.len());
        assert_eq!(stored_len(&opened, round, keys), stored);
        checksum = checksum
            .wrapping_add(hits)
            .wrapping_add(sessions.len())
            .wrapping_add(stored);
    }
    assert_eq!(hashmap_grow(rounds, keys), checksum);
}

#[test]
fn events_are_delivered_in_order() {
    let mut queue: VecDeque<(usize, Vec<u8>)> = VecDeque::new();
    assert_eq!(deliver(&mut queue), 0);
    queue.push_back((9, vec![5, 6]));
    queue.push_back((10, vec![]));
    assert_eq!(deliver(&mut queue), 9 ^ 2 ^ 5);
    assert_eq!(deliver(&mut queue), 10);

    let (rounds, events) = (2_usize, 700_usize);
    let mut checksum = 0_usize;
    for round in 0..rounds {
        let mut rng = TraceRng::new(0xe7e0_51d2_u64 ^ round as u64);
        let mut queue: VecDeque<(usize, Vec<u8>)> = VecDeque::new();
        let mut digest = 0_usize;
        let mut next = |queue: &mut VecDeque<(usize, Vec<u8>)>| {
            let (seq, payload) = queue.pop_front().unwrap();
            seq ^ payload.len() ^ usize::from(payload.first().copied().unwrap_or_default())
        };
        for seq in 0..events {
            let fill = (seq ^ round).to_le_bytes()[0];
            queue.push_back((seq, vec![fill; rng.biased_size(256)]));
            while queue.len() > 512 {
                digest = digest.wrapping_add(next(&mut queue));
            }
        }
        while !queue.is_empty() {
            digest = digest.wrapping_add(next(&mut queue));
        }
        checksum ^= digest ^ queue.capacity();
    }
    assert_eq!(vecdeque_events(rounds, events), checksum);
}

#[test]
fn cache_forgets_the_least_recent() {
    let mut cache = LruCache::new();
    for key in 0..256 {
        assert!(!cache.access(key, key));
    }
    assert_eq!(cache.len(), 256);
    assert!(cache.access(0, 1));
    assert!(!cache.access(256, 2));
    assert!(cache.access(0, 3));
    assert!(!cache.access(1, 4));
    assert_eq!(cache.len(), 256);

    let (rounds, accesses) = (2, 3_000);
    let mut checksum = 0_usize;
    for round in 0..rounds {
        let mut rng = TraceRng::new(0x1c0c_ac4e_u64 ^ round as u64);
        let keyspace = (accesses / 2).max(256 * 4);
        let mut entries: HashMap<usize, String> = HashMap::new();
        let mut recency: VecDeque<usize> = VecDeque::new();
        let mut hits = 0_usize;
        for _ in 0..accesses {
            let key = rng.next_usize(keyspace);
            if let Some(pos) = recency.iter().position(|&k| k == key) {
                recency.remove(pos);
                hits += 1;
            } else if entries.len() >= 256 {
                let victim = recency.pop_front().unwrap();
                entries.remove(&victim);
            }
            entries
                .entry(key)
                .or_insert_with(|| format!("key={key} {}", "x".repeat(64 + key % 448)));
            recency.push_back(key);
        }
        checksum ^= hits ^ entries.len() ^ entries.values().map(String::len).sum::<usize>();
    }
    assert_eq!(lru_cache(rounds, accesses), checksum);
}

#[test]
fn records_are_deduplicated_and_ranked() {
    let rows = draw_records(1, 200);
    let kept = dedup(&rows);
    let mut ids: Vec<usize> = kept.iter().map(|&at| rows[at].id).collect();
    ids.sort_unstable();
    let unique = ids.len();
    ids.dedup();
    assert_eq!(ids.len(), unique);
    assert!(rows.iter().all(|row| ids.contains(&row.id)));
    let order = rank(&rows, &kept);
    assert_eq!(order.len(), kept.len());
    for pair in order.windows(2) {
        let (a, b) = (&rows[pair[0]], &rows[pair[1]]);
        assert!(a.score > b.score || a.score == b.score && a.name <= b.name);
    }

    let (rounds, records) = (2_usize, 200_usize);
    let mut checksum = 0_usize;
    for round in 0..rounds {
        let rows = draw_records(round, records);
        let mut first: BTreeMap<usize, usize> = BTreeMap::new();
        for (at, row) in rows.iter().enumerate() {
            assert_eq!(
                row.name,
                format!("acct-{:06}-{}", row.id, at ^ round).into_bytes()
            );
            assert_eq!(row.tags.len(), 2 + row.id % 3);
            assert_eq!(row.region, row.id.to_le_bytes()[0] % 8);
            first.entry(row.id).or_insert(at);
        }
        let mut ranked: Vec<usize> = first.values().copied().collect();
        ranked.sort_by(|&a, &b| {
            rows[b]
                .score
                .cmp(&rows[a].score)
                .then_with(|| rows[a].name.cmp(&rows[b].name))
        });
        let top: usize = ranked
            .iter()
            .take(16)
            .map(|&at| {
                let row = &rows[at];
                row.score ^ row.name.len() ^ row.tags.iter().map(Vec::len).sum::<usize>()
            })
            .sum();
        let regions: usize = ranked.iter().map(|&at| usize::from(rows[at].region)).sum();
        checksum ^= top ^ ranked.len() ^ regions;
    }
    assert_eq!(records_sort(rounds, records), checksum);
}

#[test]
fn distances_are_the_least() {
    let adjacency = vec![
        vec![(1, 7), (2, 1)],
        vec![],
        vec![(1, 2), (3, 9)],
        vec![(0, 1)],
        vec![(0, 1)],
    ];
    let paths = shortest_paths(&adjacency, 0, 64);
    assert_eq!(paths.dist, [0, 3, 1, 10, usize::MAX]);
    assert_eq!((paths.settled, paths.total), (4, 14));

    let (rounds, nodes) = (2, 60);
    let mut checksum = 0_usize;
    for round in 0..rounds {
        let seed = 0x9ea0_d151_u64 ^ round as u64;
        let mut rng = TraceRng::new(seed);
        let mut adjacency: Vec<Vec<(usize, usize)>> = vec![Vec::new(); nodes];
        for (from, edges) in adjacency.iter_mut().enumerate() {
            edges.push(((from + 1) % nodes, 1 + rng.next_usize(16)));
            for step in 1..4 {
                let to = (from * step * 7 + rng.next_usize(nodes)) % nodes;
                edges.push((to, 1 + rng.next_usize(64)));
            }
        }
        assert_eq!(build_graph(seed, nodes), adjacency);
        let mut dist = vec![usize::MAX; nodes];
        dist[round] = 0;
        let mut heap = BinaryHeap::new();
        heap.push(Reverse((0, round)));
        let (mut settled, mut total) = (0_usize, 0_usize);
        while let Some(Reverse((cost, node))) = heap.pop() {
            if dist[node] < cost {
                continue;
            }
            settled += 1;
            total = total.wrapping_add(cost);
            for &(next, weight) in &adjacency[node] {
                if cost + weight < dist[next] {
                    dist[next] = cost + weight;
                    heap.push(Reverse((cost + weight, next)));
                }
            }
        }
        let reached = dist.iter().filter(|d| **d != usize::MAX).count();
        checksum ^= total ^ settled ^ reached;
    }
    assert_eq!(graph_shortest_path(rounds, nodes), checksum);
}

#[test]
fn documents_are_indexed_and_queried() {
    assert_eq!(tokenize(&b"t12 t0 t511 ".to_vec()), [12, 0, 511]);
    let (rounds, docs) = (2, 60);
    let mut checksum = 0_usize;
    for round in 0..rounds {
        let mut rng = TraceRng::new(0x7ea7_1de0_u64 ^ round as u64);
        let mut index: BTreeMap<String, Vec<usize>> = BTreeMap::new();
        for doc in 0..docs {
            for _ in 0..24 {
                let term = format!("t{}", rng.next_usize(512));
                let postings = index.entry(term).or_default();
                if postings.last() != Some(&doc) {
                    postings.push(doc);
                }
            }
        }
        let mut matched = 0_usize;
        for q in 0..16 {
            let (Some(left), Some(right)) =
                (index.get(&format!("t{q}")), index.get(&format!("t{}", q + 1)))
            else {
                continue;
            };
            matched += left.iter().filter(|doc| right.contains(doc)).count();
        }
        checksum ^= matched ^ index.len() ^ index.values().map(Vec::len).sum::<usize>();
    }
    assert_eq!(text_index(rounds, docs), checksum);
}

#[test]
fn shards_add_up() {
    let shard = build_shard(1, 2);
    assert_eq!(shard.len(), 256);
    assert_eq!(shard[30], (b"k1-30".to_vec(), ((30 + 2 + 1) % 17 + 1) * 8));
    let mut checksum = 0_usize;
    for round in 0..4 {
        let mut totals: HashMap<String, u64> = HashMap::new();
        for worker in 0..4 {
            for key in 0..256 {
                let count = ((key + worker + round) % 17 + 1) as u64 * 8;
                *totals.entry(format!("k{round}-{key}")).or_insert(0) += count;
            }
        }
        checksum ^= totals.len() ^ totals.values().fold(0, |acc, n| acc ^ *n as usize);
    }
    assert_eq!(shard_aggregator::run(), checksum);
}

#[test]
fn totals_keep_every_amount() {
    let mut totals = Totals::new();
    totals.add_to(b"a", 3);
    totals.add_to(b"b", 4);
    totals.add_to(b"a", 5);
    assert_eq!(totals.len(), 2);
    let mut amounts = [totals.amount(0), totals.amount(1)];
    amounts.sort_unstable();
    assert_eq!(amounts, [4, 8]);
}

#[test]
fn jobs_build_their_fields() {
    let (local, fields) = job(2, 17);
    assert_eq!(fields.len(), 8);
    assert_eq!(fields[5], b"r2-j17-f5");
    assert_eq!(local, 2 ^ 17 ^ (8 * 9));
    let mut checksum = 0_usize;
    for round in 0..4 {
        for index in 0..256 {
            let len: usize = (0..8).map(|field| format!("r{round}-j{index}-f{field}").len()).sum();
            checksum ^= round ^ index ^ len;
        }
    }
    assert_eq!(thread_pool_jobs::run(), checksum);
}

#[test]
fn buffers_go_back_to_their_pool() {
    let mut buffer = vec![0; 65_536];
    // First and last byte are the same and cancel out.
    assert_eq!(fill_job(&mut buffer, 300, 1, 2), 300);
    assert!(buffer.iter().all(|&byte| byte == 47));
    let mut pool = BufferPool::new(1);
    assert_eq!(run_job(&mut pool, 7, 0, 0), 7);
    assert_eq!(run_job(&mut pool, 7, 3, 0), 7);
    let taken = pool.check_out();
    assert_eq!(taken.len(), 65_536);
    let fresh = pool.check_out();
    assert!(fresh.iter().all(|&byte| byte == 0));
    pool.put_back(taken);
    let mut checksum = 0_usize;
    for _round in 0..4 {
        for job in 0..128 {
            checksum ^= job;
        }
    }
    assert_eq!(buffer_pool::run(), checksum);
}

#[test]
fn messages_are_padded() {
    let body = message(1, 30);
    assert_eq!(body.len(), 64);
    assert!(body.starts_with(b"msg-1-30fff"));
    assert_eq!(receive(&body, 3), 64 ^ 3 ^ usize::from(b'm'));
    assert_eq!(arc_broadcast::run(), 0);
}

#[test]
fn totals_fold_by_xor_and_by_sum() {
    let mut totals = Totals::new();
    assert_eq!(all_amounts(&totals), Some(0));
    assert_eq!(fold_counts(&totals), 0);
    totals.add_to(b"a", 6);
    totals.add_to(b"b", 3);
    assert_eq!(all_amounts(&totals), Some(9));
    assert_eq!(fold_counts(&totals), 6 ^ 3);
    totals.add_to(b"c", u64::MAX);
    assert_eq!(all_amounts(&totals), None);
}
