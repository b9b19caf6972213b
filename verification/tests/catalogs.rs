use moq_relay::catalog_dts::{extract_switching_sets, generate_dts_params, DtsParams, Track};

fn make_track(name: &str, alt_group: Option<u16>, bitrate: Option<u32>) -> Track {
    Track { name: name.to_string(), alt_group, bitrate }
}

fn key(name: &str) -> String {
    name.to_string()
}

fn number<T: TryFrom<u64>>(value: &serde_json::Value) -> Option<Option<T>> {
    if value.is_null() {
        return Some(None);
    }
    T::try_from(value.as_u64()?).ok().map(Some)
}

fn parse_track(track: &serde_json::Value) -> Option<Track> {
    let alt_group = number(&track["altGroup"])?;
    let bitrate = number(&track["selectionParams"]["bitrate"])?;
    Some(make_track(track["name"].as_str()?, alt_group, bitrate))
}

fn parse_catalog_for_dts(json: &str) -> Option<DtsParams> {
    let root: serde_json::Value = serde_json::from_str(json).ok()?;
    let tracks = root.get("tracks")?.as_array()?;
    let catalog = tracks.iter().map(parse_track).collect::<Option<Vec<_>>>()?;
    Some(generate_dts_params(&catalog))
}

#[test]
fn test_extract_switching_sets() {
    let catalog = vec![
        make_track("video-1080p", Some(1), Some(4_000_000)),
        make_track("video-720p", Some(1), Some(2_000_000)),
        make_track("video-480p", Some(1), Some(800_000)),
        make_track("audio-high", Some(2), Some(128_000)),
        make_track("audio-low", Some(2), Some(64_000)),
        make_track("data", None, None),
    ];

    let sets = extract_switching_sets(&catalog);

    assert_eq!(sets.len(), 2);

    let video_set = &sets[0];
    assert_eq!(video_set.alt_group, 1);
    assert_eq!(video_set.tracks.len(), 3);
    assert_eq!(video_set.tracks[0].name, "video-1080p");
    assert_eq!(video_set.tracks[0].throughput_kbps, 4000);
    assert_eq!(video_set.tracks[1].name, "video-720p");
    assert_eq!(video_set.tracks[2].name, "video-480p");

    let audio_set = &sets[1];
    assert_eq!(audio_set.alt_group, 2);
    assert_eq!(audio_set.tracks.len(), 2);
}

#[test]
fn test_generate_dts_params() {
    let catalog = vec![
        make_track("high", Some(1), Some(3_000_000)),
        make_track("medium", Some(1), Some(1_500_000)),
        make_track("low", Some(1), Some(500_000)),
    ];

    let params = generate_dts_params(&catalog);

    assert_eq!(params.len(), 3);

    let high = params.get(&key("high")).unwrap();
    assert_eq!(high.set_id, 1);
    assert_eq!(high.throughput_kbps, 3000);
    assert_eq!(high.activate, false);

    let medium = params.get(&key("medium")).unwrap();
    assert_eq!(medium.set_id, 1);
    assert_eq!(medium.throughput_kbps, 1500);
    assert_eq!(medium.activate, false);

    let low = params.get(&key("low")).unwrap();
    assert_eq!(low.set_id, 1);
    assert_eq!(low.throughput_kbps, 500);
    assert_eq!(low.activate, true);
}

#[test]
fn test_single_track_group_ignored() {
    let catalog = vec![
        make_track("only-video", Some(1), Some(2_000_000)),
        make_track("audio", Some(2), Some(128_000)),
    ];

    let sets = extract_switching_sets(&catalog);

    assert_eq!(sets.len(), 0);
}

#[test]
fn test_parse_catalog_json() {
    let json = r#"{
        "version": 1,
        "streamingFormat": 1,
        "streamingFormatVersion": "1.0",
        "supportsDeltaUpdates": false,
        "commonTrackFields": {},
        "tracks": [
            { "name": "1080p", "altGroup": 1, "selectionParams": { "bitrate": 4000000 } },
            { "name": "720p", "altGroup": 1, "selectionParams": { "bitrate": 2000000 } }
        ]
    }"#;

    let params = parse_catalog_for_dts(json).unwrap();

    assert_eq!(params.len(), 2);
    assert!(params.contains_key(&key("1080p")));
    assert!(params.contains_key(&key("720p")));
}

#[test]
fn tracks_that_are_as_good_stay_in_order() {
    let catalog = vec![
        make_track("b", Some(7), Some(1_000_900)),
        make_track("a", Some(7), Some(1_000_100)),
        make_track("top", Some(7), Some(2_000_000)),
        make_track("unknown", Some(7), None),
    ];
    let sets = extract_switching_sets(&catalog);
    let names: Vec<&str> = sets[0].tracks.iter().map(|t| t.name.as_str()).collect();
    assert_eq!(names, vec!["top", "b", "a"]);
    assert!(!generate_dts_params(&catalog).contains_key(&key("unknown")));
}

#[test]
fn tracks_stand_by_bitrate() {
    let sets = extract_switching_sets(&vec![
        make_track("a", Some(1), Some(1_000_100)),
        make_track("b", Some(1), Some(1_000_900)),
        make_track("c", Some(2), Some(64_000)),
    ]);
    assert_eq!(sets.len(), 1);
    assert_eq!(sets[0].alt_group, 1);
    let tracks: Vec<(&str, u64, u32)> = sets[0]
        .tracks
        .iter()
        .map(|t| (t.name.as_str(), t.throughput_kbps, t.bitrate_bps))
        .collect();
    assert_eq!(tracks, vec![("b", 1000, 1_000_900), ("a", 1000, 1_000_100)]);
}
