use sllv_core::profile::Profile;
use sllv_core::text::{join, push_decimal};
use sllv_core::ui::{HelpTopic, Tab};
use sllv_core::{FecError, WarpError};

#[test]
fn profile_names() {
    assert_eq!(Profile::Archive.name(), "archive");
    assert_eq!(Profile::Scan.name(), "scan");
}

#[test]
fn archive_profile_defaults() {
    let (p, fec) = Profile::Archive.defaults();
    assert_eq!(p.cell_px, 2);
    assert_eq!(p.border_cells, 2);
    assert_eq!(p.fiducial_size_cells, 12);
    assert!(!p.deskew);
    assert!(p.fec.is_none());
    assert!(fec.is_none());
    assert_eq!((p.grid_w, p.grid_h), (256, 256));
    assert_eq!(p.sync_frames, 30);
    assert_eq!(p.calibration_frames, 1);
}

#[test]
fn scan_profile_defaults() {
    let (p, fec) = Profile::Scan.defaults();
    assert_eq!(p.cell_px, 6);
    assert_eq!(p.border_cells, 4);
    assert_eq!(p.fiducial_size_cells, 18);
    assert!(p.deskew);
    let f = p.fec.unwrap();
    assert_eq!((f.data_shards, f.parity_shards, f.shard_bytes), (12, 12, 768));
    let g = fec.unwrap();
    assert_eq!((g.data_shards, g.parity_shards, g.shard_bytes), (12, 12, 768));
}

#[test]
fn help_topics_have_titles_and_bodies() {
    assert_eq!(HelpTopic::Profile.title(), "Profile");
    assert_eq!(HelpTopic::CellPx.title(), "Cell size (px)");
    assert_eq!(HelpTopic::BorderCells.title(), "Border cells");
    assert_eq!(HelpTopic::FiducialSize.title(), "Fiducial size (cells)");
    assert_eq!(HelpTopic::Deskew.title(), "Deskew");
    assert_eq!(HelpTopic::Fec.title(), "Error correction (FEC)");
    assert_eq!(HelpTopic::Ffmpeg.title(), "FFmpeg path");
    assert_eq!(HelpTopic::Fps.title(), "FPS");
    assert!(HelpTopic::Profile.body().starts_with("Choose Archive for clean, exact frames"));
    assert!(HelpTopic::Fps.body().ends_with("Does not affect decoding from frames."));
    assert_eq!(
        HelpTopic::BorderCells.body(),
        "Padding around the grid. Helps decoding by giving the detector room to find the content."
    );
    assert_ne!(Tab::Encode, Tab::Decode);
    assert_ne!(Tab::Decode, Tab::Doctor);
}

#[test]
fn error_texts() {
    assert_eq!(FecError::InvalidParams.message(), "invalid params");
    assert_eq!(FecError::Rs("boom".to_string()).message(), "reed-solomon: boom");
    assert_ne!(WarpError::NotEnoughPoints, WarpError::Singular);
}

#[test]
fn decimal_digits_of_numbers() {
    for (n, want) in [
        (0u64, "0"),
        (7, "7"),
        (10, "10"),
        (332, "332"),
        (1024, "1024"),
        (18446744073709551615, "18446744073709551615"),
    ] {
        let mut s = String::from("n=");
        push_decimal(&mut s, n);
        assert_eq!(s, format!("n={}", want));
    }
    assert_eq!(join("ab", "cd"), "abcd");
    assert_eq!(join("", ""), "");
}

#[test]
fn jobs_start_with_the_archive_profile() {
    let e = sllv_core::state::EncodeJob::default();
    assert!(e.input.is_none() && e.out_frames.is_none() && e.out_mkv.is_none());
    assert!(e.ffmpeg_path.is_none());
    assert_eq!(e.fps, 24);
    assert_eq!(e.profile, Profile::Archive);
    assert_eq!(e.rp.cell_px, 2);
    assert!(e.rp.fec.is_none());
    let d = sllv_core::state::DecodeJob::default();
    assert!(d.input_frames.is_none() && d.input_mkv.is_none() && d.out_tar.is_none());
    assert_eq!(d.profile, Profile::Archive);
    assert!(!d.rp.deskew);
}

#[test]
fn progress_reports_update_the_state() {
    use_state();
}

fn use_state() {
    let mut state = sllv_core::state::AppState::default();
    assert_eq!(state.tab, Tab::Encode);
    assert!(state.log.is_empty());
    assert!(!state.is_running && state.progress.is_none() && state.progress_rx.is_none());
    state.is_running = true;
    let (_tx, rx) = std::sync::mpsc::channel();
    state.progress_rx = Some(rx);
    let t0 = std::time::Instant::now();
    state.on_progress(
        sllv_core::state::ProgressMsg::Stage { name: "Encoding".to_string(), done: 0, total: 9 },
        t0,
    );
    let p = state.progress.as_ref().unwrap();
    assert_eq!((p.stage.as_str(), p.done, p.total), ("Encoding", 0, 9));
    assert_eq!(p.started_at, t0);
    assert_eq!(p.remaining(), None);
    let t1 = std::time::Instant::now();
    state.on_progress(
        sllv_core::state::ProgressMsg::Stage { name: "Encoding".to_string(), done: 4, total: 9 },
        t1,
    );
    let p = state.progress.as_ref().unwrap();
    assert_eq!((p.done, p.total), (4, 9));
    assert_eq!(p.started_at, t0);
    assert_eq!(p.remaining(), Some(5));
    assert!(state.is_running && state.progress_rx.is_some());
    state.on_progress(sllv_core::state::ProgressMsg::Error("disk full".to_string()), t1);
    assert_eq!(state.log, "Error: disk full\n");
    assert!(!state.is_running && state.progress.is_none() && state.progress_rx.is_none());
    state.is_running = true;
    state.on_progress(sllv_core::state::ProgressMsg::Done, t1);
    assert!(!state.is_running);
    assert_eq!(state.log, "Error: disk full\n");
}

#[test]
fn remaining_work_saturates() {
    let p = sllv_core::state::Progress {
        stage: String::new(),
        done: 12,
        total: 9,
        started_at: std::time::Instant::now(),
    };
    assert_eq!(p.remaining(), Some(0));
    let q = sllv_core::state::Progress { total: 0, ..p };
    assert_eq!(q.remaining(), None);
}
