use tts::assemble::{cut, flatten, join_pieces, plan_segments, silence, stitch, Piece};
use tts::bench::{check_samples, median, schedule, stable, stat};
use tts::engine::{
    validate_against, validate_with_voice, Capabilities, Cloning, EngineConfig, FrameRate, Gaps,
    Refusal, SynthesisRequest,
};
use tts::grid::{join_rows, split_rows, transpose};
use tts::masks::{any_padded, decode_grid, prefill_grid, window_mask};
use tts::number::{parse_positive, parse_usize, write_usize};
use tts::order::{order_by, place_of, restore};
use tts::quant::{parse_block_quant, parse_weight, Format, QuantError, Weight};
use tts::rng::Rng;
use tts::sampling::{
    argmax, argmax_drawn, argmax_last, crossing, multinomial, survivors, top_ranks,
};
use tts::voice::Voice;
use tts::wav::{pcm_s16le, to_bytes, Audio};

/// The unit-interval draw: half a step inside both ends.
fn next_f32(r: &mut Rng) -> f32 {
    let u = (r.next_bits() as f32 + 0.5) / 16_777_216.0;
    u.min(1.0 - f32::EPSILON / 2.0)
}

#[test]
fn the_same_seed_gives_the_same_stream() {
    let a: Vec<f32> = {
        let mut r = Rng::new(7);
        (0..64).map(|_| next_f32(&mut r)).collect()
    };
    let b: Vec<f32> = {
        let mut r = Rng::new(7);
        (0..64).map(|_| next_f32(&mut r)).collect()
    };
    assert_eq!(a, b);
    let c: Vec<f32> = {
        let mut r = Rng::new(8);
        (0..64).map(|_| next_f32(&mut r)).collect()
    };
    assert_ne!(a, c);
}

#[test]
fn draws_stay_strictly_inside_the_unit_interval() {
    let mut r = Rng::new(1);
    for _ in 0..100_000 {
        let u = next_f32(&mut r);
        assert!(u > 0.0 && u < 1.0, "{u}");
    }
}

#[test]
fn the_mean_of_many_draws_is_near_one_half() {
    let mut r = Rng::new(3);
    let n = 200_000;
    let mean: f64 = (0..n).map(|_| next_f32(&mut r) as f64).sum::<f64>() / n as f64;
    assert!((mean - 0.5).abs() < 0.01, "mean {mean}");
}

#[test]
fn filling_draws_in_order() {
    let mut one = Rng::new(5);
    let singly: Vec<u32> = (0..10).map(|_| one.next_bits()).collect();
    let mut other = Rng::new(5);
    let mut v = vec![0u32; 10];
    other.fill(&mut v);
    assert_eq!(singly, v);
    assert!(v.iter().all(|b| *b < 1 << 24));
    assert_eq!(one.next_u64(), other.next_u64());
}

#[test]
fn different_seeds_draw_differently() {
    let firsts: Vec<u64> = (0..64).map(|seed| Rng::new(seed).next_u64()).collect();
    for (i, a) in firsts.iter().enumerate() {
        for b in &firsts[..i] {
            assert_ne!(a, b);
        }
    }
    let mut zero = Rng::new(0);
    assert!((0..100).any(|_| zero.next_u64() != 0));
}

#[test]
fn a_wav_file_has_its_header_and_samples() {
    let audio = Audio { samples: vec![0, 1, -1, i16::MIN, i16::MAX], sample_rate: 24000 };
    let b = to_bytes(&audio);
    assert_eq!(b.len(), 44 + 10);
    assert_eq!(&b[0..4], b"RIFF");
    assert_eq!(&b[4..8], &46u32.to_le_bytes());
    assert_eq!(&b[8..16], b"WAVEfmt ");
    assert_eq!(&b[16..20], &16u32.to_le_bytes());
    assert_eq!(&b[20..22], &1u16.to_le_bytes());
    assert_eq!(&b[22..24], &1u16.to_le_bytes());
    assert_eq!(&b[24..28], &24000u32.to_le_bytes());
    assert_eq!(&b[28..32], &48000u32.to_le_bytes());
    assert_eq!(&b[32..34], &2u16.to_le_bytes());
    assert_eq!(&b[34..36], &16u16.to_le_bytes());
    assert_eq!(&b[36..40], b"data");
    assert_eq!(&b[40..44], &10u32.to_le_bytes());
    assert_eq!(&b[44..], &[0, 0, 1, 0, 255, 255, 0, 128, 255, 127]);
    assert_eq!(pcm_s16le(&[258, -2]), vec![2, 1, 254, 255]);
}

#[test]
fn different_audio_makes_different_files() {
    let a = to_bytes(&Audio { samples: vec![1, 2], sample_rate: 8000 });
    let b = to_bytes(&Audio { samples: vec![1, 3], sample_rate: 8000 });
    let c = to_bytes(&Audio { samples: vec![1, 2], sample_rate: 8001 });
    assert_ne!(a, b);
    assert_ne!(a, c);
}

#[test]
fn silence_lasts_as_long_as_it_says() {
    assert_eq!(silence(0i32, 24000, 90).len(), 2160);
    assert_eq!(silence(0i32, 44100, 320).len(), 14112);
    assert!(silence(0u8, 3, 1000).iter().all(|x| *x == 0));
    assert!(silence(0u8, 44100, 0).is_empty());
}

#[test]
fn paragraphs_are_numbered_in_reading_order() {
    let paras = vec![
        vec!["a".to_string(), "b".to_string()],
        Vec::new(),
        vec!["c".to_string()],
    ];
    let flat = flatten(&paras);
    assert_eq!(
        flat,
        vec![(0, "a".to_string()), (0, "b".to_string()), (2, "c".to_string())]
    );
    assert_eq!(plan_segments("One.\nTwo.", 50).unwrap().len(), 2);
    assert!(plan_segments(" \n ", 50).is_none());
}

#[test]
fn a_waveform_is_cut_where_its_segments_end() {
    let samples: Vec<i32> = (0..11).collect();
    let pieces = cut(&vec![0, 0, 1], &vec![2, 1, 2], 2, &samples);
    assert_eq!(pieces.len(), 3);
    assert_eq!(pieces[0].samples, vec![0, 1, 2, 3]);
    assert_eq!(pieces[1].samples, vec![4, 5]);
    assert_eq!(pieces[2].samples, vec![6, 7, 8, 9, 10]);
    assert_eq!(pieces[2].para, 1);
    let short = cut(&vec![0, 0, 1], &vec![2, 1, 2], 2, &samples[..4]);
    assert_eq!(short.len(), 1);
}

#[test]
fn gaps_go_between_pieces_only() {
    let p = |para: usize, s: &[i32]| Piece { para, samples: s.to_vec() };
    let pieces = vec![p(0, &[1]), p(0, &[2]), p(1, &[3])];
    assert_eq!(stitch(&pieces, &[0], &[9, 9]), vec![1, 0, 2, 9, 9, 3]);
    assert_eq!(
        join_pieces(&pieces, 0, 1000, 1, 2),
        Some(vec![1, 0, 2, 0, 0, 3])
    );
    assert_eq!(join_pieces(&Vec::<Piece<i32>>::new(), 0, 1000, 1, 2), None);
}

#[test]
fn ordering_is_stable() {
    assert_eq!(order_by(&vec![3, 1, 3, 2], false), vec![1, 3, 0, 2]);
    assert_eq!(order_by(&vec![3, 1, 3, 2], true), vec![0, 2, 3, 1]);
    assert_eq!(order_by(&Vec::new(), true), Vec::<usize>::new());
    assert_eq!(place_of(&vec![2, 0, 1], 1), 2);
    let results = vec![vec![vec![7]], vec![vec![8]], vec![vec![9]]];
    assert_eq!(
        restore(&vec![2, 0, 1], &results),
        vec![vec![vec![8]], vec![vec![9]], vec![vec![7]]]
    );
}

#[test]
fn grids_turn_and_turn_back() {
    let rows = vec![vec![1, 2, 3], vec![4, 5, 6]];
    let turned = transpose(&rows, 3);
    assert_eq!(turned, vec![vec![1, 4], vec![2, 5], vec![3, 6]]);
    assert_eq!(transpose(&turned, 2), rows);
    let flat = join_rows(&rows);
    assert_eq!(flat, vec![1, 2, 3, 4, 5, 6]);
    assert_eq!(split_rows(&flat, 2, 3), rows);
}

#[test]
fn masks_hide_padding_and_the_future() {
    assert!(!any_padded(&vec![0, 0]));
    assert!(any_padded(&vec![0, 1]));
    let m = prefill_grid(&vec![0, 1], 3);
    assert_eq!(m.len(), 18);
    assert_eq!(
        &m[0..9],
        &[false, true, true, false, false, true, false, false, false]
    );
    assert_eq!(
        &m[9..18],
        &[false, true, true, true, false, true, true, false, false]
    );
    assert_eq!(
        decode_grid(&vec![0, 2], 4),
        vec![false, false, false, false, true, true, false, false]
    );
    assert_eq!(
        window_mask(3, 2),
        vec![false, true, true, false, false, true, true, false, false]
    );
}

#[test]
fn numbers_read_as_they_are_written() {
    assert_eq!(parse_usize("+42"), Some(42));
    assert_eq!(parse_usize("007"), Some(7));
    for bad in ["", "+", "-1", "1x", " 1", "99999999999999999999999"] {
        assert_eq!(parse_usize(bad), None, "{bad}");
    }
    assert_eq!(parse_positive("0"), None);
    assert_eq!(parse_positive("3"), Some(3));
    for n in [0usize, 7, 10, 99, 100, 12345, usize::MAX] {
        assert_eq!(write_usize(n), n.to_string());
        assert_eq!(parse_usize(&write_usize(n)), Some(n));
    }
}

#[test]
fn format_names_are_told_apart() {
    assert_eq!(parse_block_quant(None).unwrap(), Some(Format::Q8_0));
    assert_eq!(parse_block_quant(Some("none")).unwrap(), None);
    assert_eq!(parse_block_quant(Some("f32")).unwrap(), None);
    assert_eq!(parse_block_quant(Some("q5_0")).unwrap(), Some(Format::Q5_0));
    assert_eq!(parse_block_quant(Some("q4_1")).unwrap(), Some(Format::Q4_1));
    assert_eq!(parse_block_quant(Some("q4_0")).unwrap(), Some(Format::Q4_0));
    assert!(matches!(
        parse_block_quant(Some("q4_K")),
        Err(QuantError::LargeBlocks { .. })
    ));
    assert!(matches!(
        parse_block_quant(Some("f16")),
        Err(QuantError::Unknown { .. })
    ));
    assert_eq!(parse_weight(Some("q4_0")).unwrap(), Weight::Quant(Format::Q4_0));
    assert!(matches!(
        parse_weight(Some("q4_K")),
        Err(QuantError::Unknown { .. })
    ));
}

fn caps(available: bool, cloning: Cloning) -> Capabilities {
    Capabilities {
        id: "x",
        description: "",
        sample_rate: 1,
        frame_rate: FrameRate { frames: 1, seconds: 1 },
        cloning,
        streaming: false,
        quantization: Vec::new(),
        available,
        reason: None,
    }
}

fn voice_for(engine: &str) -> Voice {
    Voice {
        engine: engine.to_string(),
        name: "v".to_string(),
        text: "t".to_string(),
        tensors: Vec::new(),
    }
}

#[test]
fn requests_start_at_their_defaults() {
    let r = SynthesisRequest::new("hello");
    assert_eq!(r.text, "hello");
    assert!(r.voice.is_none());
    assert_eq!((r.max_chars, r.max_new_tokens), (220, 512));
    assert_eq!(r.gaps, Gaps { segment_ms: 90, paragraph_ms: 320 });
    assert_eq!((r.sampling.top_k, r.sampling.seed), (50, 1234));
    assert!(!r.sampling.greedy);
    let r = r.with_voice(voice_for("x"));
    assert_eq!(r.voice.unwrap().engine, "x");
}

#[test]
fn requests_are_refused_for_a_reason() {
    let ready = caps(true, Cloning::PrecomputedAsset);
    let plain = SynthesisRequest::new("hello");
    assert_eq!(validate_against(&ready, &plain), Ok(()));
    assert_eq!(validate_with_voice(&ready, &plain), Err(Refusal::NoVoice));
    assert_eq!(
        validate_against(&caps(false, Cloning::PrecomputedAsset), &plain),
        Err(Refusal::Unavailable)
    );
    let own = SynthesisRequest::new("hello").with_voice(voice_for("x"));
    assert_eq!(validate_with_voice(&ready, &own), Ok(()));
    assert_eq!(
        validate_against(&caps(true, Cloning::Unsupported), &own),
        Err(Refusal::NoCloning)
    );
    let other = SynthesisRequest::new("hello").with_voice(voice_for("y"));
    assert_eq!(validate_against(&ready, &other), Err(Refusal::WrongVoice));
}

#[test]
fn files_lie_below_the_root_unless_overridden() {
    let mut c = EngineConfig::new("root");
    assert_eq!(c.path("codec", "a/b.safetensors"), "root/a/b.safetensors");
    assert_eq!(c.path("codec", "/abs"), "/abs");
    c.model_root = "root/".to_string();
    assert_eq!(c.path("codec", "f"), "root/f");
    c.model_root = String::new();
    assert_eq!(c.path("codec", "f"), "f");
    c.overrides.push(("codec".to_string(), "one".to_string()));
    c.overrides.push(("codec".to_string(), "two".to_string()));
    assert_eq!(c.path("codec", "f"), "two");
    assert_eq!(c.setting("codec").unwrap(), "two");
    assert!(c.setting("none").is_none());
}

#[test]
fn the_best_candidates_are_ranked_first() {
    let keys = vec![5i64, 9, 9, -3, 7];
    assert_eq!(top_ranks(&keys, 3), vec![1, 2, 4]);
    assert_eq!(top_ranks(&keys, 0), vec![1]);
    assert_eq!(top_ranks(&keys, 99), vec![1, 2, 4, 0, 3]);
    assert_eq!(
        survivors(5, &vec![1, 2, 4], &vec![false, true, false]),
        vec![false, true, true, false, false]
    );
    assert_eq!(argmax(&keys), 1);
    assert_eq!(argmax(&Vec::new()), 0);
    assert_eq!(argmax_last(&keys), 2);
    assert_eq!(argmax_drawn(&vec![None, Some(3), None, Some(4), Some(4)]), 3);
    assert_eq!(argmax_drawn(&vec![None, None]), 0);
}

#[test]
fn a_draw_lands_on_the_first_weight_that_reaches_it() {
    assert_eq!(crossing(&vec![true, true, false, true]), 2);
    assert_eq!(crossing(&vec![true]), 1);
    assert_eq!(crossing(&Vec::new()), 0);
    let ids = vec![10, 20, 30];
    assert_eq!(multinomial(&ids, false, &vec![false, true, true]), 20);
    assert_eq!(multinomial(&ids, false, &vec![false, false, false]), 30);
    assert_eq!(multinomial(&ids, true, &vec![false, true, true]), 10);
}

#[test]
fn a_median_was_measured() {
    assert_eq!(median(&vec![5, 1, 9]), 5);
    assert_eq!(median(&vec![4, 1, 9, 5]), 4);
    assert_eq!(median(&vec![7]), 7);
    let s = stat(&vec![3, 8, 2, 8, 5]);
    assert_eq!((s.median, s.min, s.max), (5, 2, 8));
    assert_eq!(check_samples(4), Err(4));
    assert_eq!(check_samples(5), Ok(()));
    assert_eq!(schedule(3, 2), vec![0, 1, 2, 0, 1, 2]);
    assert!(schedule(0, 5).is_empty());
    assert!(stable(100, 114));
    assert!(!stable(100, 115));
}
