use soundboard::mixer::{Command, Mixer, MixerError, Reply, SoundDevices, MAX_CLIPS};

fn name(s: &str) -> String {
    s.to_string()
}

#[test]
fn two_clips_sum_on_both_sinks() {
    let mut m = Mixer::new();
    assert_eq!(m.play_sound(name("a"), vec![100, 200, 300], SoundDevices::Both), Ok(0));
    assert_eq!(m.play_sound(name("b"), vec![10, 20], SoundDevices::Both), Ok(1));
    let (out, lb) = m.mix_tick(4, &vec![1, 1, 1, 1]);
    assert_eq!(out, vec![110, 220, 300, 0]);
    assert_eq!(lb, vec![111, 221, 301, 1]);
    assert_eq!(m.handles.len(), 0);
}

#[test]
fn sinks_are_respected() {
    let mut m = Mixer::new();
    m.play_sound(name("out"), vec![5, 5], SoundDevices::Output).unwrap();
    m.play_sound(name("loop"), vec![7, 7], SoundDevices::Loopback).unwrap();
    let (out, lb) = m.mix_tick(2, &vec![1000, 1000]);
    assert_eq!(out, vec![5, 5]);
    assert_eq!(lb, vec![1007, 1007]);
}

#[test]
fn input_never_reaches_output() {
    let mut m = Mixer::new();
    let (out, lb) = m.mix_tick(3, &vec![9, -9]);
    assert_eq!(out, vec![0, 0, 0]);
    assert_eq!(lb, vec![9, -9, 0]);
}

#[test]
fn sum_is_hard_clipped() {
    let mut m = Mixer::new();
    m.play_sound(name("a"), vec![30000, -30000], SoundDevices::Both).unwrap();
    m.play_sound(name("b"), vec![30000, -30000], SoundDevices::Both).unwrap();
    let (out, lb) = m.mix_tick(2, &vec![]);
    assert_eq!(out, vec![32767, -32768]);
    assert_eq!(lb, vec![32767, -32768]);
}

#[test]
fn stop_all_silences_next_tick() {
    let mut m = Mixer::new();
    for i in 0..5 {
        m.play_sound(format!("clip{}", i), vec![1000; 64], SoundDevices::Both)
            .unwrap();
    }
    assert_eq!(m.stop_all(), 5);
    let (out, lb) = m.mix_tick(8, &vec![3; 8]);
    assert_eq!(out, vec![0; 8]);
    assert_eq!(lb, vec![3; 8]);
}

#[test]
fn order_of_play_does_not_change_mix() {
    let a = vec![100i16, -50, 25, 7];
    let b = vec![-3i16, 60, 70];
    let mut ab = Mixer::new();
    ab.play_sound(name("a"), a.clone(), SoundDevices::Both).unwrap();
    ab.play_sound(name("b"), b.clone(), SoundDevices::Both).unwrap();
    let mut ba = Mixer::new();
    ba.play_sound(name("b"), b, SoundDevices::Both).unwrap();
    ba.play_sound(name("a"), a, SoundDevices::Both).unwrap();
    assert_eq!(ab.mix_tick(5, &vec![2; 5]), ba.mix_tick(5, &vec![2; 5]));
}

#[test]
fn status_lists_active_clips_with_growing_progress() {
    let mut m = Mixer::new();
    m.play_sound(name("long"), vec![1; 10], SoundDevices::Both).unwrap();
    m.play_sound(name("short"), vec![1; 3], SoundDevices::Output).unwrap();
    let s0 = m.status();
    assert_eq!(s0.len(), 2);
    assert_eq!((s0[0].id, s0[0].name.as_str(), s0[0].position, s0[0].length), (0, "long", 0, 10));
    m.mix_tick(2, &vec![]);
    let s1 = m.status();
    assert_eq!(s1.len(), 2);
    assert_eq!((s1[0].position, s1[1].position), (2, 2));
    m.mix_tick(2, &vec![]);
    let s2 = m.status();
    assert_eq!(s2.len(), 1);
    assert_eq!((s2[0].id, s2[0].position), (0, 4));
}

#[test]
fn too_many_clips_is_refused() {
    let mut m = Mixer::new();
    for i in 0..MAX_CLIPS {
        assert_eq!(m.play_sound(name("x"), vec![1], SoundDevices::Both), Ok(i as u64));
    }
    assert_eq!(
        m.play_sound(name("x"), vec![1], SoundDevices::Both),
        Err(MixerError::TooManyConcurrentClips)
    );
    assert_eq!(m.handles.len(), MAX_CLIPS);
}

#[test]
fn commands_are_answered() {
    let mut m = Mixer::new();
    assert!(matches!(
        m.handle(Command::PlaySound(name("a"), vec![1, 2], SoundDevices::Both)),
        Reply::Started(0)
    ));
    match m.handle(Command::PlayStatus(77)) {
        Reply::Status(token, entries) => {
            assert_eq!(token, 77);
            assert_eq!(entries.len(), 1);
        }
        _ => panic!("expected a status reply"),
    }
    assert!(matches!(m.handle(Command::StopAll), Reply::Stopped(1)));
    match m.handle(Command::PlayStatus(78)) {
        Reply::Status(token, entries) => {
            assert_eq!(token, 78);
            assert_eq!(entries.len(), 0);
        }
        _ => panic!("expected a status reply"),
    }
}

#[test]
fn ids_stay_unique_after_stop_all() {
    let mut m = Mixer::new();
    assert!(matches!(
        m.handle(Command::PlaySound(name("a"), vec![1], SoundDevices::Both)),
        Reply::Started(0)
    ));
    assert!(matches!(m.handle(Command::StopAll), Reply::Stopped(1)));
    assert!(matches!(
        m.handle(Command::PlaySound(name("b"), vec![1], SoundDevices::Both)),
        Reply::Started(1)
    ));
}

#[test]
fn any_order_of_three_clips_mixes_alike() {
    let clips = [
        (vec![1000i16, -2000, 3000], SoundDevices::Both),
        (vec![30000i16, 30000], SoundDevices::Output),
        (vec![-7i16, 8, -9, 10], SoundDevices::Loopback),
    ];
    let orders = [[0, 1, 2], [0, 2, 1], [1, 0, 2], [1, 2, 0], [2, 0, 1], [2, 1, 0]];
    let mut results = Vec::new();
    for order in orders {
        let mut m = Mixer::new();
        for i in order {
            m.play_sound(name("c"), clips[i].0.clone(), clips[i].1).unwrap();
        }
        results.push(m.mix_tick(5, &vec![5; 5]));
    }
    for r in &results {
        assert_eq!(r, &results[0]);
    }
    assert_eq!(results[0].0, vec![31000, 28000, 3000, 0, 0]);
    assert_eq!(results[0].1, vec![998, -1987, 2996, 15, 5]);
}

#[test]
fn progress_never_goes_back_across_events() {
    let mut m = Mixer::new();
    m.play_sound(name("a"), vec![1; 20], SoundDevices::Both).unwrap();
    let s0 = m.status();
    m.mix_tick(3, &vec![]);
    m.play_sound(name("b"), vec![1; 4], SoundDevices::Both).unwrap();
    let _ = m.handle(Command::PlayStatus(1));
    m.mix_tick(0, &vec![]);
    m.mix_tick(5, &vec![]);
    let s1 = m.status();
    assert_eq!(s1.len(), 1);
    assert_eq!((s0[0].id, s0[0].position, s0[0].length), (0, 0, 20));
    assert_eq!((s1[0].id, s1[0].position, s1[0].length), (0, 8, 20));
    m.stop_all();
    m.play_sound(name("c"), vec![1; 2], SoundDevices::Both).unwrap();
    assert_eq!(m.status()[0].id, 2);
}
