use xav::chunk::{
    all_chunks_done, scene_len_cap, chunkify, format_resume, split_window, SplitWindow, parse_resume, parse_scenes, pending_chunks, validate_scenes, Chunk,
    ChunkComp, InvalidScene, ResumeInf, Scene,
};

#[test]
fn scenes_become_numbered_chunks() {
    let scenes = parse_scenes(b"20\n0\n10\n", 30);
    let chunks = chunkify(&scenes);
    assert_eq!(
        chunks,
        vec![
            Chunk { idx: 0, start: 0, end: 10 },
            Chunk { idx: 1, start: 10, end: 20 },
            Chunk { idx: 2, start: 20, end: 30 },
        ]
    );
}

#[test]
fn scene_file_skips_bad_lines() {
    let scenes = parse_scenes(b"  5 \r\nabc\n\n+7\n1 2\n-3\n", 9);
    assert_eq!(
        scenes,
        vec![Scene { s_frame: 5, e_frame: 7 }, Scene { s_frame: 7, e_frame: 9 }]
    );
    assert!(parse_scenes(b"", 9).is_empty());
}

#[test]
fn single_scene_to_total() {
    let scenes = parse_scenes(b"0\n", 10);
    assert_eq!(scenes, vec![Scene { s_frame: 0, e_frame: 10 }]);
}

#[test]
fn validate_rejects_empty_and_long_scenes() {
    let ok = vec![Scene { s_frame: 0, e_frame: 240 }, Scene { s_frame: 240, e_frame: 300 }];
    assert_eq!(validate_scenes(&ok, 24, 1), Ok(()));
    let too_long = vec![Scene { s_frame: 0, e_frame: 241 }];
    assert_eq!(validate_scenes(&too_long, 24, 1), Err(InvalidScene { index: 0 }));
    let empty = vec![Scene { s_frame: 0, e_frame: 5 }, Scene { s_frame: 5, e_frame: 5 }];
    assert_eq!(validate_scenes(&empty, 24, 1), Err(InvalidScene { index: 1 }));
    // 60 fps caps at 300 frames.
    assert_eq!(validate_scenes(&[Scene { s_frame: 0, e_frame: 300 }], 60, 1), Ok(()));
    assert_eq!(
        validate_scenes(&[Scene { s_frame: 0, e_frame: 301 }], 60, 1),
        Err(InvalidScene { index: 0 })
    );
    // 24000/1001 rounds to 24 fps: 240 frames.
    assert_eq!(validate_scenes(&[Scene { s_frame: 0, e_frame: 240 }], 24000, 1001), Ok(()));
    assert!(validate_scenes(&[Scene { s_frame: 0, e_frame: 241 }], 24000, 1001).is_err());
}

#[test]
fn resume_file_round_trip() {
    let data = ResumeInf {
        chnks_done: vec![
            ChunkComp { idx: 3, frames: 120, size: 45_000 },
            ChunkComp { idx: 0, frames: 7, size: 18_446_744_073_709_551_615 },
        ],
    };
    let text = format_resume(&data);
    assert_eq!(text, b"3 120 45000\n0 7 18446744073709551615\n".to_vec());
    let back = parse_resume(&text);
    assert_eq!(back.chnks_done, data.chnks_done);
    assert_eq!(format_resume(&back), text);
}

#[test]
fn resume_skips_malformed_lines() {
    let r = parse_resume(b"1 2 3\n1 2\nx 2 3\n 4\t5  6 \n7 8 9 10\n");
    assert_eq!(
        r.chnks_done,
        vec![ChunkComp { idx: 1, frames: 2, size: 3 }, ChunkComp { idx: 4, frames: 5, size: 6 }]
    );
}

#[test]
fn resume_skips_done_chunks() {
    let chunks: Vec<Chunk> =
        (0..6).map(|i| Chunk { idx: i, start: i * 10, end: i * 10 + 10 }).collect();
    let done = parse_resume(b"0 10 1\n1 10 1\n2 10 1\n3 10 1\n");
    let todo = pending_chunks(&chunks, &done);
    assert_eq!(todo, vec![chunks[4], chunks[5]]);
}

#[test]
fn split_window_for_long_scene() {
    // 700 frames with pieces of at most 240: two splits, pieces near 233.
    assert_eq!(split_window(700, 240), SplitWindow { middle: 233, min_size: 116, max_size: 240 });
    assert_eq!(split_window(250, 240), SplitWindow { middle: 125, min_size: 62, max_size: 187 });
}

#[test]
fn scene_cap_and_completion() {
    assert_eq!(scene_len_cap(24000, 1001), 240);
    assert_eq!(scene_len_cap(60, 1), 300);
    assert_eq!(scene_len_cap(12, 1), 120);
    let chunks: Vec<Chunk> = (0..3).map(|i| Chunk { idx: i, start: i, end: i + 1 }).collect();
    assert!(!all_chunks_done(&chunks, &parse_resume(b"0 1 1\n2 1 1\n")));
    assert!(all_chunks_done(&chunks, &parse_resume(b"2 1 1\n0 1 1\n1 1 1\n")));
}
