use viper::compile::{nes_duty, noise_period_index};
use viper::rip::clock::{row_starts, Fit};
use viper::rip::envelope::{cell_volume, read_adsr, synth_instruments, Adsr, NoteEnv};
use viper::rip::pitch::{noise_note, pulse_note, tri_note};
use viper::rip::report::Report;
use viper::rip::trace::{ChannelFrame, FrameTrace, PU1};
use viper::rip::transcribe::{fold_repeats, spans_row};
use viper::rip::{fit_grid, rip, RipError, RipOptions};
use viper::song::{Cell, CHANNELS};

const CPU_HZ: f64 = 1789773.0;

/// A table of `n` frames with key-ons on one channel at the given frames.
fn keyed(n: u32, c: usize, at: &[u32], period: u16) -> Vec<FrameTrace> {
    (0..n)
        .map(|frame| {
            let mut f = FrameTrace::silent(frame);
            f.ch[c] = ChannelFrame {
                period,
                level: 10,
                keyed: at.contains(&frame),
                constant_vol: true,
                ..Default::default()
            };
            f
        })
        .collect()
}

/// The onsets of one note every so many rows.
fn played_at(bpm: u16, every: usize, frames: u32) -> Vec<u32> {
    row_starts(bpm, 1, frames, 0).into_iter().step_by(every).collect()
}

#[test]
fn the_row_clock_is_an_accumulator_not_a_straight_line() {
    let s = row_starts(220, 1, 60, 0);
    assert_eq!(&s[..15], &[1, 5, 9, 13, 17, 21, 25, 29, 33, 37, 41, 45, 50, 54, 58]);
}

#[test]
fn the_grid_is_the_coarsest_that_fits_not_the_best_fitting() {
    let ons = played_at(220, 1, 200);
    let t = keyed(202, PU1, &ons, 169);
    let g = fit_grid(&t, None);
    assert_eq!(g.bpm, 220);
    assert!(
        900.0 / g.bpm as f64 > 4.0,
        "not a degenerate one-frame grid: {}",
        900.0 / g.bpm as f64
    );
    assert_eq!(
        g.fit,
        Fit::Exact { ambiguous: None },
        "a full song's worth of onsets pins the tempo"
    );
}

#[test]
fn a_half_speed_song_is_not_read_as_a_double_speed_one() {
    let ons = played_at(220, 2, 400);
    let t = keyed(402, PU1, &ons, 169);
    assert_eq!(fit_grid(&t, None).bpm, 110, "not 220 with every other row blank");
}

#[test]
fn a_tempo_the_evidence_cannot_pin_is_reported_as_ambiguous() {
    let ons: Vec<u32> = (0..16).map(|i| 1 + i * 6).collect();
    let g = fit_grid(&keyed(100, PU1, &ons, 169), None);
    assert_eq!(g.bpm, 150, "the middle of the tied range, not an edge of it");
    assert_eq!(g.fit, Fit::Exact { ambiguous: Some((149, 151)) });
}

#[test]
fn a_told_tempo_is_never_reported_as_inferred() {
    let t = keyed(120, PU1, &[1, 5, 9, 13], 169);
    assert_eq!(fit_grid(&t, Some(150)).fit, Fit::Told);
    assert_eq!(fit_grid(&t, Some(150)).bpm, 150);
}

#[test]
fn periods_invert_to_the_notes_that_produced_them() {
    assert_eq!(pulse_note(169), Some(76), "E-5");
    assert_eq!(pulse_note(213), Some(72), "C-5");
    assert_eq!(tri_note(678), Some(40), "E-2");
    assert_eq!(pulse_note(4), None);
}

#[test]
fn every_pulse_note_survives_the_round_trip_through_a_period() {
    for n in 33u8..=107 {
        let hz = 440.0 * 2f64.powf((n as f64 - 69.0) / 12.0);
        let p = (CPU_HZ / (16.0 * hz) - 1.0).round() as u16;
        assert_eq!(pulse_note(p), Some(n), "period {} for note {}", p, n);
    }
}

#[test]
fn noise_notes_round_trip_through_the_period_index() {
    for idx in 0u16..=15 {
        let n = noise_note(idx);
        assert_eq!(noise_period_index(n) as u16, idx, "index {} -> note {}", idx, n);
    }
}

#[test]
fn the_volume_column_is_inverted_rather_than_copied() {
    for level in 1u8..=14 {
        let v = cell_volume(level);
        assert_eq!((v as u16 * 15) >> 4, level as u16, "level {} needs volume {}", level, v);
    }
    assert!((1..=15).contains(&cell_volume(0)));
    assert_eq!(
        cell_volume(15),
        15,
        "the one level out of reach clamps rather than overflowing"
    );
}

#[test]
fn a_release_tail_is_not_mistaken_for_a_held_note() {
    let mut t: Vec<FrameTrace> = (0..16).map(FrameTrace::silent).collect();
    for (i, l) in [10u8, 9, 9, 9, 7, 4, 2, 0, 0, 0, 0, 0, 0, 0, 0, 0].iter().enumerate() {
        t[i].ch[PU1].level = *l;
    }
    let starts = vec![0u32, 4, 8, 12];
    assert!(
        !spans_row(&t, PU1, &starts, 1),
        "the release does not reach row 2, so row 1 ended the note"
    );
    assert!(!spans_row(&t, PU1, &starts, 2), "and row 2 is silent throughout");
    let shifted = vec![1u32, 5, 9, 13];
    assert!(!spans_row(&t, PU1, &shifted, 1));

    for f in t.iter_mut() {
        f.ch[PU1].level = 9;
    }
    assert!(spans_row(&t, PU1, &starts, 1));
    assert!(!spans_row(&t, PU1, &starts, 3), "the last row has no next row to reach");
}

#[test]
fn a_song_held_twice_is_folded_back_to_once() {
    let note = |n: u8| {
        let mut r = [Cell::default(); CHANNELS];
        r[0] = Cell { note: Some(n), ..Default::default() };
        r
    };
    let mut rows: Vec<[Cell; CHANNELS]> = (0..16).map(|i| note(60 + i)).collect();
    rows.extend(rows.clone());
    assert_eq!(fold_repeats(&mut rows), Some(16));
    assert_eq!(rows.len(), 16);
    let mut once: Vec<[Cell; CHANNELS]> = (0..32).map(|i| note(60 + i)).collect();
    assert_eq!(fold_repeats(&mut once), None);
    assert_eq!(once.len(), 32);
}

#[test]
fn a_key_on_with_no_volume_never_becomes_a_note() {
    let mut t = keyed(40, PU1, &[1, 5, 9], 169);
    t[5].ch[PU1].level = 0;
    let (song, report, _) = rip(&t, &RipOptions { bpm: None }).unwrap();
    assert_eq!(report.notes[PU1], 2, "the silent key-on is not music");
    assert_eq!(report.silent_keyons, 1);
    let written: usize = song
        .phrases
        .iter()
        .map(|p| p.cells.iter().filter(|r| r[PU1].note.is_some()).count())
        .sum();
    assert_eq!(written, 2, "and it reaches no cell");
}

#[test]
fn an_observed_note_gives_back_the_envelope_that_played_it() {
    let a = read_adsr(&[10, 9, 9, 9, 7, 4, 2, 0], 15).unwrap();
    assert_eq!(a, Adsr { attack: 0, decay: 1, release: 4, peak: 11, sustain: 10 });

    let i = a.to_instrument(250);
    assert_eq!(i.attack_ms, 0);
    assert_eq!(i.release_ms, 67, "four frames");
    assert!((i.sustain as f64 / 1000.0 - 10.0 / 11.0).abs() < 0.01);
    assert!(
        (i.volume as f64 / 1000.0 - 11.0 / 15.0).abs() < 0.01,
        "the source asked for 0.70"
    );
}

#[test]
fn a_note_cut_short_reports_no_release_rather_than_a_wrong_one() {
    let a = read_adsr(&[10, 9, 9, 9], 15).unwrap();
    assert_eq!(a.release, 0);
    assert_eq!(a.peak, 11);
    assert_eq!(a.sustain, 10);
}

#[test]
fn a_rising_attack_is_measured_not_assumed() {
    let a = read_adsr(&[3, 6, 9, 14, 14, 14], 15).unwrap();
    assert_eq!(a.attack, 3, "three frames before the peak");
    assert_eq!(a.peak, 15);
}

#[test]
fn silence_is_not_an_envelope() {
    assert!(read_adsr(&[0, 0, 0], 15).is_none());
    assert!(read_adsr(&[], 15).is_none());
}

#[test]
fn the_same_voice_at_two_volumes_is_one_instrument() {
    let loud = NoteEnv { ch: PU1, duty: 1, levels: vec![10, 9, 9, 9, 7, 4, 2, 0] };
    let soft = NoteEnv { ch: PU1, duty: 1, levels: vec![5, 4, 4, 4] };
    let (instr, assign) = synth_instruments(&vec![loud, soft]);
    assert_eq!(instr.len(), 1, "one voice, two volumes");
    assert_eq!(assign, vec![0, 0]);
    assert!((instr[0].volume as f64 / 1000.0 - 11.0 / 15.0).abs() < 0.01);
}

#[test]
fn two_different_shapes_stay_apart() {
    let plucked = NoteEnv { ch: PU1, duty: 1, levels: vec![15, 8, 4, 1, 0] };
    let held = NoteEnv { ch: PU1, duty: 1, levels: vec![15, 15, 15, 15, 15] };
    let (instr, assign) = synth_instruments(&vec![plucked, held]);
    assert_eq!(instr.len(), 2);
    assert_ne!(assign[0], assign[1]);
}

#[test]
fn a_pulse_duty_survives_the_round_trip() {
    for (bits, frac) in [(0u8, 125i32), (1, 250), (2, 500), (3, 750)] {
        let n = NoteEnv { ch: PU1, duty: bits, levels: vec![15, 15] };
        let (instr, _) = synth_instruments(&vec![n]);
        assert_eq!(instr[0].duty, frac);
        assert_eq!(nes_duty(instr[0].duty), bits, "and quantises back");
    }
}

#[test]
fn a_table_without_music_is_refused() {
    let none: Vec<FrameTrace> = Vec::new();
    assert_eq!(rip(&none, &RipOptions { bpm: None }).unwrap_err(), RipError::Empty);
    assert_eq!(RipError::Empty.message(), "rip: nothing to transcribe");
    assert_eq!(
        RipError::TooManyPhrases(300).message(),
        "300 unique phrases; the .vip format holds 256"
    );
}

#[test]
fn a_rip_reports_what_it_found() {
    let ons = played_at(220, 1, 200);
    let t = keyed(202, PU1, &ons, 169);
    let (song, report, grid) = rip(&t, &RipOptions { bpm: None }).unwrap();
    assert_eq!(grid.bpm, 220);
    assert_eq!(song.bpm, 220);
    assert_eq!(song.phrases[song.order[0]].cells[0][0].note, Some(76));
    assert!(report.summary().contains("220 BPM"), "{}", report.summary());
}

#[test]
fn where_nothing_fits_the_least_bad_is_double_precisions() {
    let ons: Vec<u32> = (0..20).collect();
    let g = fit_grid(&keyed(21, PU1, &ons, 169), None);
    assert_eq!(g.bpm, 300);
    assert_eq!(g.starts, vec![0, 3, 6, 9, 12, 15, 18, 21]);
}

#[test]
fn rows_are_shown_as_double_precision_has_them() {
    let t = keyed(40, PU1, &[0, 7, 20], 169);
    for bpm in [1u16, 7, 64, 80, 96, 150, 160, 320, 480, 576, 800, 1600, 2400, 4000, 7200, 65535] {
        let (_, report, _) = rip(&t, &RipOptions { bpm: Some(bpm) }).unwrap();
        let want = format!("{} BPM, {:.2} frames/row", bpm, 900.0 / bpm as f64);
        assert!(report.summary().contains(&want), "{} {}", want, report.summary());
    }
    let (_, report, _) = rip(&t, &RipOptions { bpm: Some(4000) }).unwrap();
    assert!(report.summary().contains("4000 BPM, 0.23 frames/row"), "{}", report.summary());
    for frames in [0usize, 1, 60, 61, 1803, 150_247, 300_494, 4_294_967_295] {
        let r = Report { frames, ..Report::default() };
        let want = format!("{} frames ({:.2}s)", frames, frames as f64 / 60.0988);
        assert!(r.summary().contains(&want), "{} {}", want, r.summary());
    }
    for (within, of) in [(191u64, 200u64), (19, 20), (999, 1000), (965, 1000), (1, 1), (0, 3)] {
        let fit = Fit::Fitted { worst_frames: 3, within: within as _, of: of as _ };
        let r = Report { bpm: 170, fit: Some(fit), ..Report::default() };
        let want = format!(
            "{:.0}% of onsets within 0.25 rows, worst {:.2}",
            (within as f64 / of as f64) * 100.0,
            3.0 / (900.0 / 170.0)
        );
        assert!(r.summary().contains(&want), "{} {}", want, r.summary());
    }
}

#[test]
fn every_note_is_counted() {
    let mut t = keyed(80, PU1, &[0, 1, 6, 12, 18, 24, 40], 169);
    t[12].ch[PU1].level = 0;
    t[24].ch[PU1].period = 1;
    for f in t.iter_mut().skip(30).take(10) {
        f.ch[PU1].period = 200;
    }
    let (_, r, _) = rip(&t, &RipOptions { bpm: Some(150) }).unwrap();
    let notes: u64 = r.notes.iter().map(|&n| n as u64).sum();
    let heard: u64 = t
        .iter()
        .map(|f| f.ch.iter().filter(|c| c.keyed && c.level > 0).count() as u64)
        .sum();
    assert_eq!(heard, 6);
    assert_eq!(r.silent_keyons, 1);
    assert_eq!(notes + r.unpitched + r.row_collisions, heard + r.slide_targets);
    assert!(r.row_collisions > 0);
}

#[test]
fn a_row_clock_counts_from_anywhere() {
    assert_eq!(row_starts(150, 0, 20, 1024), vec![4, 10, 16]);
    assert_eq!(row_starts(150, 0, 20, 10_000_000), Vec::<u32>::new());
    assert_eq!(row_starts(150, 0, 20, -1), Vec::<u32>::new());
}
