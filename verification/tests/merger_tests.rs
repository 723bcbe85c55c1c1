use segcore::merger::{bytes_compare, TermInfo, TermMerger, TermStreamer, VecTermStreamer};

fn info(n: u32) -> TermInfo {
    TermInfo { doc_freq: n, postings_start: n as u64 * 10, postings_stop: n as u64 * 10 + 5 }
}

fn streamer(keys: &[&str], tag: u32) -> VecTermStreamer {
    let entry_keys: Vec<Vec<u8>> = keys.iter().map(|k| k.as_bytes().to_vec()).collect();
    let entry_infos: Vec<TermInfo> = (0..keys.len()).map(|i| info(tag * 100 + i as u32)).collect();
    VecTermStreamer::new(entry_keys, entry_infos)
}

fn drain(mut merger: TermMerger<VecTermStreamer>) -> Vec<(Vec<u8>, Vec<usize>)> {
    let mut out = vec![];
    while merger.advance() {
        let ords: Vec<usize> = merger
            .current_segment_ords_and_term_infos()
            .iter()
            .map(|p| p.0)
            .collect();
        out.push((merger.key(), ords));
    }
    out
}

#[test]
fn merge_three_segments_scenario() {
    let merger = TermMerger::new(vec![
        streamer(&["a", "c"], 0),
        streamer(&["b", "c"], 1),
        streamer(&["a", "d"], 2),
    ]);
    let merged = drain(merger);
    let expected: Vec<(Vec<u8>, Vec<usize>)> = vec![
        (b"a".to_vec(), vec![0, 2]),
        (b"b".to_vec(), vec![1]),
        (b"c".to_vec(), vec![0, 1]),
        (b"d".to_vec(), vec![2]),
    ];
    assert_eq!(merged, expected);
}

#[test]
fn merge_grouping_reports_infos() {
    // the key is present in streams 1 and 3 but absent from stream 2
    let mut merger = TermMerger::new(vec![
        streamer(&["k"], 0),
        streamer(&["k"], 1),
        streamer(&["x"], 2),
        streamer(&["k"], 3),
    ]);
    assert!(merger.advance());
    assert_eq!(merger.key(), b"k".to_vec());
    let group = merger.current_segment_ords_and_term_infos();
    assert_eq!(group.len(), 3);
    assert_eq!(group[0], (0, info(0)));
    assert_eq!(group[1], (1, info(100)));
    assert_eq!(group[2], (3, info(300)));
    assert!(merger.advance());
    assert_eq!(merger.key(), b"x".to_vec());
    assert_eq!(merger.current_segment_ords_and_term_infos(), vec![(2, info(200))]);
    assert!(!merger.advance());
}

#[test]
fn merge_output_is_sorted_and_deduplicated() {
    let merger = TermMerger::new(vec![
        streamer(&["apple", "pear", "zebra"], 0),
        streamer(&["apple", "banana", "pear"], 1),
        streamer(&["banana"], 2),
    ]);
    let merged = drain(merger);
    let keys: Vec<Vec<u8>> = merged.iter().map(|e| e.0.clone()).collect();
    assert_eq!(
        keys,
        vec![
            b"apple".to_vec(),
            b"banana".to_vec(),
            b"pear".to_vec(),
            b"zebra".to_vec()
        ]
    );
    assert_eq!(merged[0].1, vec![0, 1]);
    assert_eq!(merged[1].1, vec![1, 2]);
    assert_eq!(merged[2].1, vec![0, 1]);
    assert_eq!(merged[3].1, vec![0]);
}

#[test]
fn merge_empty_and_prefix_keys() {
    let merger = TermMerger::new(vec![
        streamer(&["", "ab"], 0),
        streamer(&["a", "ab", "abc"], 1),
    ]);
    let merged = drain(merger);
    let keys: Vec<Vec<u8>> = merged.iter().map(|e| e.0.clone()).collect();
    assert_eq!(
        keys,
        vec![b"".to_vec(), b"a".to_vec(), b"ab".to_vec(), b"abc".to_vec()]
    );
}

#[test]
fn merge_no_streams() {
    let mut merger: TermMerger<VecTermStreamer> = TermMerger::new(vec![]);
    assert!(!merger.advance());
}

#[test]
fn streamer_walks_entries() {
    let mut s = streamer(&["x", "y"], 0);
    assert!(s.advance());
    assert_eq!(s.key(), b"x".to_vec());
    assert_eq!(s.value(), info(0));
    assert!(s.advance());
    assert_eq!(s.key(), b"y".to_vec());
    assert_eq!(s.value(), info(1));
    assert!(!s.advance());
}

#[test]
fn bytes_compare_is_lexicographic() {
    assert_eq!(bytes_compare(b"abc", b"abd"), -1);
    assert_eq!(bytes_compare(b"abd", b"abc"), 1);
    assert_eq!(bytes_compare(b"abc", b"abc"), 0);
    assert_eq!(bytes_compare(b"ab", b"abc"), -1);
    assert_eq!(bytes_compare(b"abc", b"ab"), 1);
    assert_eq!(bytes_compare(b"", b""), 0);
    assert_eq!(bytes_compare(b"", b"a"), -1);
}
