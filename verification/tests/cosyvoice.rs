use candle_core::{DType, Device, Tensor};
use tokenizers::models::wordlevel::WordLevel;
use tokenizers::pre_tokenizers::whitespace::WhitespaceSplit;
use tokenizers::processors::bert::BertProcessing;
use tokenizers::Tokenizer;
use tts::cosyvoice;
use tts::cosyvoice::cfg::hift::{stage_channels, upsample_kernels, upsample_rates};
use tts::cosyvoice::cfg::llm as k;
use tts::cosyvoice::engine::{
    capabilities, check_mel, conditioning, cut_call, finish, flow_budget, flow_call, flow_groups,
    flow_per_segment, llm_max_batch, plan, prompts, spans, tokenize, Conditioning, Span, SpeakError,
};
use tts::cosyvoice::flow;
use tts::cosyvoice::flow::FlowError;
use tts::cosyvoice::hift;
use tts::cosyvoice::hift::{HiftError, Up};
use tts::cosyvoice::llm::{
    build_prompt, check_geometry, decode_mask, decoded_at_once, guard_fires, step_batch, Batch,
    GeometryError, LlmError, Row, Segment,
};
use tts::cosyvoice::stft::{reflect_pad_1d, reflect_positions, Stft};
use tts::engine::{EngineConfig, FrameRate, Refusal, SynthesisRequest};
use tts::rng::Rng;
use tts::sampling::{crossing, multinomial, top_ranks};
use tts::tokens::Tokens;
use tts::voice::{Voice, VoiceError};

/// A key that compares as the score does.
fn key(x: f32) -> i64 {
    let b = x.to_bits() as i32;
    (if b < 0 { i32::MIN.wrapping_sub(b) } else { b }) as i64
}

fn softmax(scores: &[f32]) -> Vec<f32> {
    let max = scores.iter().copied().fold(f32::NEG_INFINITY, f32::max);
    let e: Vec<f32> = scores
        .iter()
        .map(|s| if *s == f32::NEG_INFINITY { 0.0 } else { (s - max).exp() })
        .collect();
    let sum: f32 = e.iter().sum();
    e.iter().map(|x| x / sum).collect()
}

fn draw(weights: &[f32], ids: &Vec<u32>, rng: &mut Rng) -> u32 {
    let total: f32 = weights.iter().sum();
    let u = (rng.next_bits() as f32 + 0.5) / 16_777_216.0;
    let target = u.min(1.0 - f32::EPSILON / 2.0) * total;
    let mut acc = 0.0;
    let reached = weights
        .iter()
        .map(|w| {
            acc += w;
            acc >= target
        })
        .collect();
    multinomial(ids, total <= 0.0, &reached)
}

/// Nucleus sampling and the repetition guard, around the library's decisions.
fn ras_sampling(scores: &mut [f32], decoded: &[u32], rng: &mut Rng) -> u32 {
    let probs = softmax(scores);
    let keys: Vec<i64> = probs.iter().map(|p| key(*p)).collect();
    let head = top_ranks(&keys, k::TOP_K);
    let mut cum = 0.0f32;
    let below = head
        .iter()
        .map(|i| {
            let b = cum < 0.8;
            if b {
                cum += probs[*i];
            }
            b
        })
        .collect();
    let n = crossing(&below);
    let weights: Vec<f32> = head[..n].iter().map(|i| probs[*i]).collect();
    let ids: Vec<u32> = head[..n].iter().map(|i| *i as u32).collect();
    let top = draw(&weights, &ids, rng);
    if !guard_fires(&decoded.to_vec(), top) {
        return top;
    }
    scores[top as usize] = f32::NEG_INFINITY;
    let all: Vec<u32> = (0..scores.len() as u32).collect();
    draw(&softmax(scores), &all, rng)
}

#[test]
fn a_dominant_token_is_always_chosen() {
    let mut rng = Rng::new(1);
    let sc = vec![0.0, 0.0, 40.0, 0.0, 0.0, 0.0, 0.0, 0.0];
    for _ in 0..50 {
        assert_eq!(ras_sampling(&mut sc.clone(), &[], &mut rng), 2);
    }
}

#[test]
fn the_cutoff_crosses_top_p_rather_than_stopping_short() {
    let mut rng = Rng::new(2);
    let sc = vec![0.5f32.ln(), 0.3f32.ln(), 0.2f32.ln()];
    let mut seen = [0usize; 3];
    for _ in 0..4000 {
        seen[ras_sampling(&mut sc.clone(), &[], &mut rng) as usize] += 1;
    }
    assert!(
        seen[0] > 0 && seen[1] > 0,
        "both survivors should appear: {seen:?}"
    );
    assert_eq!(
        seen[2], 0,
        "the third token is outside the nucleus: {seen:?}"
    );
    let ratio = seen[0] as f64 / seen[1] as f64;
    assert!((ratio - 5.0 / 3.0).abs() < 0.2, "ratio {ratio}");
}

#[test]
fn a_single_repeat_in_the_window_trips_the_guard() {
    let mut rng = Rng::new(3);
    let sc = vec![0.0, 40.0, 0.0, 0.0];
    let mut got_other = false;
    for _ in 0..50 {
        let t = ras_sampling(&mut sc.clone(), &[1], &mut rng);
        assert_ne!(t, 1, "the guard must exclude the repeated token");
        got_other = true;
    }
    assert!(got_other);
}

#[test]
fn the_guard_stays_quiet_when_nothing_repeats() {
    let mut rng = Rng::new(4);
    let sc = vec![0.0, 40.0, 0.0, 0.0];
    assert_eq!(ras_sampling(&mut sc.clone(), &[0, 2, 3], &mut rng), 1);
}

#[test]
fn the_window_only_looks_back_ras_win_tokens() {
    let mut rng = Rng::new(5);
    let sc = vec![0.0, 40.0, 0.0, 0.0];
    let mut history = vec![1u32];
    history.extend(std::iter::repeat_n(0, k::RAS_WIN));
    assert_eq!(ras_sampling(&mut sc.clone(), &history, &mut rng), 1);
    assert!(!guard_fires(&history, 1));
    assert!(guard_fires(&history[..k::RAS_WIN].to_vec(), 1));
}

#[test]
fn reflect_pad_excludes_the_edge_sample() {
    let x = vec![1f32, 2.0, 3.0, 4.0];
    let y = reflect_pad_1d(&x, 2, 2).unwrap();
    assert_eq!(y, vec![3.0, 2.0, 1.0, 2.0, 3.0, 4.0, 3.0, 2.0]);
}

/// Analysis then synthesis, around the library's framing.
fn transform(st: &Stft, x: &[f32]) -> Vec<Vec<f64>> {
    let n = st.n_fft;
    let tau = 2.0 * std::f64::consts::PI;
    st.frame(x)
        .unwrap()
        .iter()
        .map(|row| {
            let mut spec = vec![0.0; 2 * st.bins()];
            for b in 0..st.bins() {
                for (t, v) in row.iter().enumerate() {
                    let w = 0.5 - 0.5 * (tau * t as f64 / n as f64).cos();
                    let th = tau * (b * t) as f64 / n as f64;
                    spec[b] += *v as f64 * w * th.cos();
                    spec[st.bins() + b] -= *v as f64 * w * th.sin();
                }
            }
            spec
        })
        .collect()
}

#[test]
fn stft_round_trip_reconstructs_the_signal() {
    let st = Stft { n_fft: 16, hop: 4 };
    let n = 512;
    let x: Vec<f32> = (0..n)
        .map(|i| (0.017 * i as f64).sin() as f32 * 0.5 + (0.3 * i as f64).cos() as f32 * 0.2)
        .collect();
    let spec = transform(&st, &x);
    assert_eq!(spec.len(), n / 4 + 1);
    assert!(spec.iter().all(|s| s.len() == 18));
    let tau = 2.0 * std::f64::consts::PI;
    let window: Vec<f64> = (0..16).map(|t| 0.5 - 0.5 * (tau * t as f64 / 16.0).cos()).collect();
    let frames: Vec<Vec<f64>> = spec
        .iter()
        .map(|s| {
            (0..16)
                .map(|t| {
                    let mut v = 0.0;
                    for b in 0..9 {
                        let edge = b == 0 || b == 8;
                        let th = tau * (b * t) as f64 / 16.0;
                        let mult = if edge { 1.0 } else { 2.0 } / 16.0;
                        v += mult * s[b] * th.cos();
                        if !edge {
                            v -= mult * s[9 + b] * th.sin();
                        }
                    }
                    v * window[t]
                })
                .collect()
        })
        .collect();
    assert_eq!(st.total(frames.len()), n + 16);
    assert_eq!(st.inverse_len(frames.len()), n);
    for (i, want) in x.iter().enumerate() {
        let taps = st.taps_at(frames.len(), i + 8);
        let sum: f64 = taps.iter().map(|(f, t)| frames[*f][*t]).sum();
        let env: f64 = taps.iter().map(|(_, t)| window[*t] * window[*t]).sum();
        assert!((sum / env - *want as f64).abs() < 2e-5, "sample {i}");
    }
}

#[test]
fn a_constant_signal_transforms_to_the_window_spectrum() {
    let st = Stft { n_fft: 16, hop: 4 };
    let spec = transform(&st, &vec![1.0; 128]);
    let mut want = vec![0f64; 18];
    want[0] = 8.0;
    want[1] = -4.0;
    for (b, (got, exp)) in spec[10].iter().zip(want.iter()).enumerate() {
        assert!((got - exp).abs() < 1e-4, "bin {b} = {got}, expected {exp}");
    }
}

#[test]
fn framing_knows_its_lengths() {
    let st = Stft { n_fft: 16, hop: 4 };
    assert_eq!((st.bins(), st.frames_for(480)), (9, 121));
    assert_eq!(st.frames_for(3), 1);
    assert!(st.frame(&[0u8; 8]).is_none());
    assert_eq!(st.frame(&[7u8; 9]).unwrap().len(), 3);
    assert_eq!(st.taps_at(2, 5), vec![(0, 5), (1, 1)]);
    assert_eq!(st.taps_at(2, 40), Vec::new());
    assert_eq!(reflect_positions(4, 1, 0), Some(vec![1, 0, 1, 2, 3]));
    assert_eq!(reflect_positions(2, 2, 0), None);
    assert_eq!(reflect_positions(2, 0, 2), None);
    assert_eq!(reflect_positions(0, 0, 0), Some(Vec::new()));
}

#[test]
fn the_geometry_is_checked_at_load() {
    assert_eq!(upsample_rates(), [8, 5, 3]);
    assert_eq!(upsample_kernels(), [16, 11, 7]);
    assert_eq!([stage_channels(0), stage_channels(1), stage_channels(2)], [256, 128, 64]);
    let ups = [
        Up { out: 256, input: 512, stride: 8 },
        Up { out: 128, input: 256, stride: 5 },
        Up { out: 64, input: 128, stride: 3 },
    ];
    assert_eq!(hift::check_geometry(5, 18, 9, &ups), Ok(()));
    assert_eq!(hift::check_geometry(4, 18, 9, &ups), Err(HiftError::ConvPre { kernel: 4 }));
    assert_eq!(hift::check_geometry(5, 17, 9, &ups), Err(HiftError::ConvPost { channels: 17 }));
    assert_eq!(hift::check_geometry(5, 18, 8, &ups), Err(HiftError::Harmonics { got: 8 }));
    let mut bad = ups;
    bad[1].input = 255;
    assert_eq!(
        hift::check_geometry(5, 18, 9, &bad),
        Err(HiftError::Channels { stage: 1, out: 128, input: 255 })
    );
    let mut bad = ups;
    bad[2].stride = 4;
    assert_eq!(
        hift::check_geometry(5, 18, 9, &bad),
        Err(HiftError::Stride { stage: 2, stride: 4 })
    );
    assert_eq!(hift::down_strides(), [15, 3, 1]);
    assert_eq!(hift::samples_for(210), 100_800);

    assert_eq!(flow::check_noise(15000), Ok(()));
    assert_eq!(flow::check_noise(14999), Err(FlowError::Noise { frames: 14999 }));
    assert_eq!(flow::check_geometry(6561, 22, 4), Ok(()));
    assert_eq!(flow::check_geometry(1, 22, 4), Err(FlowError::Embedding { rows: 1 }));
    assert_eq!(flow::check_geometry(6561, 2, 4), Err(FlowError::Blocks { got: 2 }));
    assert_eq!(flow::check_geometry(6561, 22, 3), Err(FlowError::Lookahead { kernel: 3 }));

    assert_eq!(check_geometry(6761, 6761, 896), Ok(()));
    assert_eq!(check_geometry(1, 6761, 896), Err(GeometryError::SpeechRows { got: 1 }));
    assert_eq!(check_geometry(6761, 2, 896), Err(GeometryError::Logits { got: 2 }));
    assert_eq!(check_geometry(6761, 6761, 3), Err(GeometryError::TextWidth { got: 3 }));
}

#[test]
fn the_flow_keeps_only_the_speech() {
    let p = flow::synthesize(&vec![1, 2, 3], &vec![4, 5], 6, 100).unwrap();
    assert_eq!(p.tokens, vec![1, 2, 3, 4, 5]);
    assert_eq!((p.total, p.pad, p.skip, p.keep), (10, 4, 6, 4));
    assert!(matches!(
        flow::synthesize(&vec![1], &Vec::new(), 3, 100),
        Err(FlowError::Prompt { frames: 3, total: 2 })
    ));
    assert!(matches!(
        flow::synthesize(&vec![1], &vec![2], 2, 3),
        Err(FlowError::Frames { wanted: 4, available: 3 })
    ));
    assert_eq!(flow::mu_positions(3), vec![0, 0, 1, 1, 2, 2]);
    let row: Vec<usize> = (0..1024).collect();
    let moved = flow::move_head0_last(&row);
    assert_eq!((moved[0], moved[959], moved[960], moved[1023]), (64, 1023, 0, 63));
}

fn segment(text: &[u32], len: usize) -> Segment {
    Segment { text: text.to_vec(), speech: vec![7], text_len: len }
}

#[test]
fn prompts_name_their_tables() {
    let rows = build_prompt(&vec![5, k::ENDOFPROMPT], &vec![9]).unwrap();
    assert_eq!(
        rows,
        vec![
            Row::Speech(6561),
            Row::Text(5),
            Row::Text(k::ENDOFPROMPT),
            Row::Speech(6563),
            Row::Speech(9),
        ]
    );
    assert_eq!(build_prompt(&vec![5], &Vec::new()), Err(LlmError::NoEndOfPrompt));
}

#[test]
fn lanes_stop_at_the_marker_or_the_bound() {
    let e = k::ENDOFPROMPT;
    let mut b = Batch::begin(&vec![segment(&[e], 1), segment(&[e, 5, 6], 2)]).unwrap();
    assert_eq!(b.order, vec![1, 0]);
    assert_eq!((b.width, b.live), (6, 2));
    assert_eq!(b.pads(), vec![0, 2]);
    assert_eq!((b.lanes[0].min_len, b.lanes[0].max_len), (4, 40));
    assert!(b.start_masked(0) && b.start_masked(1));
    assert_eq!(b.prefill_mask(&b.pads()).unwrap().len(), 72);
    assert_eq!(b.hear(&vec![10, 20]), vec![10, 20]);
    // The second lane's control token finishes it, and the tail is shed.
    assert_eq!(b.hear(&vec![11, k::EOS as u32]), vec![11]);
    assert_eq!(b.live, 1);
    assert!(!b.start_masked(1) && b.start_masked(0));
    for i in 0..37 {
        assert!(!b.over());
        assert_eq!(b.hear(&vec![12]), vec![12], "step {i}");
    }
    assert_eq!(b.hear(&vec![13]), Vec::<u32>::new());
    assert!(b.over());
    let out = b.finish();
    assert_eq!(out[0], vec![20]);
    assert_eq!(out[1].len(), 40);
    assert_eq!(out[1][39], 13);
}

#[test]
fn prompts_and_steps_can_be_refused() {
    assert!(matches!(Batch::begin(&Vec::new()), Err(LlmError::NoPrompts)));
    assert_eq!(decoded_at_once(&Vec::new()), Some(Vec::new()));
    assert_eq!(decoded_at_once(&vec![segment(&[1], 1)]), None);
    assert!(matches!(
        Batch::begin(&vec![segment(&[1], 1)]),
        Err(LlmError::NoEndOfPrompt)
    ));
    let wide = vec![k::ENDOFPROMPT; 4097];
    assert!(matches!(
        Batch::begin(&vec![segment(&wide, 1)]),
        Err(LlmError::TooWide { width: 4100 })
    ));
    assert_eq!(step_batch(10, 2, 2), Ok(11));
    assert_eq!(step_batch(4096, 2, 2), Err(LlmError::CacheFull));
    assert_eq!(
        step_batch(10, 2, 3),
        Err(LlmError::LaneMismatch { tokens: 3, lanes: 2 })
    );
    assert!(decode_mask(&vec![0, 0], 5).is_none());
    assert_eq!(decode_mask(&vec![1], 3), Some(vec![true, false, false]));
}

fn ids(rows: &[Vec<i64>]) -> Tensor {
    let len = rows.first().map(|r| r.len()).unwrap_or(0);
    let flat: Vec<i64> = rows.iter().flatten().copied().collect();
    Tensor::from_vec(flat, (rows.len(), len), &Device::Cpu).unwrap()
}

fn voice(mel_frames: usize) -> Voice {
    let d = Device::Cpu;
    let zeros = |a: usize, b: usize| Tensor::zeros((1, a, b), DType::F32, &d).unwrap();
    Voice {
        engine: "cosyvoice".to_string(),
        name: "v".to_string(),
        text: "said".to_string(),
        tensors: vec![
            ("speech_tokens".to_string(), ids(&[vec![4, 5, 6]])),
            ("prompt_text_tokens".to_string(), ids(&[vec![8, 9]])),
            ("prompt_mel".to_string(), zeros(mel_frames, 80)),
            ("speaker_embedding".to_string(), zeros(1, 192)),
        ],
    }
}

#[test]
fn a_voice_carries_its_conditioning() {
    let d = Device::Cpu;
    let c = conditioning(&voice(6), &d).unwrap();
    assert_eq!(c.tokens, vec![4, 5, 6]);
    assert_eq!(c.text_tokens, vec![8, 9]);
    assert_eq!(c.mel.dims(), &[1, 6, 80]);
    assert_eq!(c.speaker.dims(), &[1, 1, 192]);
    assert!(matches!(
        conditioning(&voice(5), &d),
        Err(SpeakError::MelMismatch { tokens: 3, frames: 5 })
    ));
    assert!(check_mel(3, 6).is_ok());
    for (at, missing) in
        ["speech_tokens", "prompt_text_tokens", "prompt_mel", "speaker_embedding"].iter().enumerate()
    {
        let mut v = voice(6);
        v.tensors.remove(at);
        assert!(matches!(
            conditioning(&v, &d),
            Err(SpeakError::Voice(VoiceError::NoTensor { name, have }))
                if name == *missing && have.len() == 3
        ));
    }
    let mut v = voice(6);
    v.tensors[0].1 = Tensor::zeros(3, DType::U32, &d).unwrap();
    assert!(matches!(
        conditioning(&v, &d),
        Err(SpeakError::Voice(VoiceError::NotTwoDim { name })) if name == "speech_tokens"
    ));
    let mut v = voice(6);
    v.tensors[0].1 = Tensor::zeros((0, 3), DType::U32, &d).unwrap();
    assert!(matches!(conditioning(&v, &d), Err(SpeakError::NoSpeechTokens)));
    let mut v = voice(6);
    v.tensors[1].1 = Tensor::zeros((0, 3), DType::U32, &d).unwrap();
    assert!(matches!(conditioning(&v, &d), Err(SpeakError::NoTextTokens)));
    let mut v = voice(6);
    v.tensors[2].1 = Tensor::zeros(6, DType::F32, &d).unwrap();
    assert!(matches!(conditioning(&v, &d), Err(SpeakError::Tensor(_))));
}

#[test]
fn a_plan_needs_a_voice_and_text() {
    let c = capabilities();
    assert_eq!((c.id, c.sample_rate), ("cosyvoice", 24000));
    assert_eq!(c.frame_rate, FrameRate { frames: 50, seconds: 1 });
    let with = |t: &str| SynthesisRequest::new(t).with_voice(voice(6));
    assert_eq!(plan(&with("One. Two.")).unwrap(), vec![(0, "One. Two.".to_string())]);
    assert!(matches!(
        plan(&SynthesisRequest::new("One.")),
        Err(SpeakError::Refused(Refusal::NoVoice))
    ));
    assert!(matches!(plan(&with(" ")), Err(SpeakError::NoText)));
    let mut other = voice(6);
    other.engine = "audio8".to_string();
    assert!(matches!(
        plan(&SynthesisRequest::new("x").with_voice(other)),
        Err(SpeakError::Refused(Refusal::WrongVoice))
    ));
}

#[test]
fn settings_have_their_defaults() {
    let mut c = EngineConfig::new("r");
    assert!(!flow_per_segment(&c));
    assert_eq!(llm_max_batch(&c), 8);
    c.overrides.push(("flow_per_segment".to_string(), "1".to_string()));
    c.overrides.push(("llm_batch".to_string(), "3".to_string()));
    assert!(flow_per_segment(&c));
    assert_eq!(llm_max_batch(&c), 3);
    c.overrides.push(("flow_per_segment".to_string(), "0".to_string()));
    c.overrides.push(("llm_batch".to_string(), "0".to_string()));
    assert!(!flow_per_segment(&c));
    assert_eq!(llm_max_batch(&c), 8);
}

fn span(para: usize, n: usize) -> Span {
    Span { para, speech: vec![para as u32; n] }
}

#[test]
fn segments_share_a_flow_call_within_the_budget() {
    assert_eq!(flow_budget(15000, 294, false), 1000);
    assert_eq!(flow_budget(1000, 294, false), 206);
    assert_eq!(flow_budget(100, 294, false), 1);
    assert_eq!(flow_budget(15000, 294, true), 1);
    let s = vec![span(0, 3), span(0, 2), span(1, 9), span(1, 1)];
    assert_eq!(flow_groups(&s, 5), vec![vec![0, 1], vec![2], vec![3]]);
    assert_eq!(flow_groups(&s, 1), vec![vec![0], vec![1], vec![2], vec![3]]);
    assert_eq!(flow_groups(&s, 100), vec![vec![0, 1, 2, 3]]);
    let call = flow_call(&s, &vec![1, 3]);
    assert_eq!(call.tokens, vec![0, 0, 1]);
    assert_eq!((call.paras.clone(), call.lens.clone()), (vec![0, 1], vec![2, 1]));
    let mut pieces = Vec::new();
    let wav: Vec<u16> = (0..2880).collect();
    cut_call(&mut pieces, &call, &wav);
    assert_eq!(pieces.len(), 2);
    assert_eq!(pieces[0].samples.len(), 1920);
    assert_eq!(pieces[1].samples[0], 1920);
    let r = SynthesisRequest::new("x");
    let said = finish(&r, &pieces, 0).unwrap();
    assert_eq!(said.sample_rate, 24000);
    let all = said.samples;
    assert_eq!(all.len(), 2880 + 24 * 320);
    assert!(matches!(finish(&r, &Vec::new(), 0u16), Err(SpeakError::NoAudio)));
    assert_eq!(cosyvoice::cfg::SAMPLE_RATE, 24000);
}

#[test]
fn silent_segments_are_left_out() {
    let t = |para: usize, ids: &[u32]| Tokens { para, chars: 1, ids: ids.to_vec() };
    let tokens = vec![t(0, &[1]), t(1, &[2, 3])];
    let zeros = Tensor::zeros(1, DType::F32, &Device::Cpu).unwrap();
    let cond = Conditioning {
        speaker: zeros.clone(),
        tokens: vec![40],
        mel: zeros,
        text_tokens: vec![50, 51],
    };
    let p = prompts(&cond, &tokens).unwrap();
    assert_eq!(p[1].text, vec![50, 51, 2, 3]);
    assert_eq!((p[1].speech.clone(), p[1].text_len), (vec![40], 2));
    assert!(matches!(prompts(&cond, &Vec::new()), Err(SpeakError::NoText)));
    let s = spans(&tokens, &vec![Vec::new(), vec![6]]).unwrap();
    assert_eq!(s.len(), 1);
    assert_eq!((s[0].para, s[0].speech.clone()), (1, vec![6]));
    assert!(matches!(
        spans(&tokens, &vec![Vec::new(), Vec::new()]),
        Err(SpeakError::NoSpeech)
    ));
}

#[test]
fn special_tokens_are_live() {
    let vocab = [("<unk>", 0u32), ("[CLS]", 1), ("[SEP]", 2), ("hi", 3)]
        .iter()
        .map(|(w, i)| (w.to_string(), *i))
        .collect();
    let model = WordLevel::builder()
        .vocab(vocab)
        .unk_token("<unk>".to_string())
        .build()
        .unwrap();
    let mut t = Tokenizer::new(model);
    t.with_pre_tokenizer(Some(WhitespaceSplit));
    t.with_post_processor(Some(BertProcessing::new(
        ("[SEP]".to_string(), 2),
        ("[CLS]".to_string(), 1),
    )));
    let segments = vec![(4, "hi you".to_string())];
    let out = tokenize(&t, &segments).unwrap();
    assert_eq!((out[0].para, out[0].chars), (4, 6));
    assert_eq!(out[0].ids, vec![1, 3, 0, 2]);
    let plain = tts::qwen3tts::engine::tokenize(&t, &segments).unwrap();
    assert_eq!(plain[0].ids, vec![3, 0]);
}

#[test]
fn what_was_read_of_a_voice_is_settled() {
    let mel = Tensor::zeros((1, 4, 80), DType::F32, &Device::Cpu).unwrap();
    let speech = vec![vec![5u32, 6], vec![9, 9]];
    let said = vec![vec![1u32, 2, 3]];
    let none: Vec<Vec<u32>> = Vec::new();
    let c = cosyvoice::engine::settle(&speech, &said, mel.clone(), 4, mel.clone()).unwrap();
    assert_eq!(c.tokens, vec![5, 6]);
    assert_eq!(c.text_tokens, vec![1, 2, 3]);
    assert!(matches!(
        cosyvoice::engine::settle(&none, &said, mel.clone(), 4, mel.clone()),
        Err(SpeakError::NoSpeechTokens)
    ));
    assert!(matches!(
        cosyvoice::engine::settle(&speech, &none, mel.clone(), 4, mel.clone()),
        Err(SpeakError::NoTextTokens)
    ));
    assert!(matches!(
        cosyvoice::engine::settle(&speech, &said, mel.clone(), 5, mel.clone()),
        Err(SpeakError::MelMismatch { tokens: 2, frames: 5 })
    ));
}

#[test]
fn prompts_are_decoded_in_runs() {
    let groups = cosyvoice::engine::llm_groups;
    assert_eq!(groups(0, 8), vec![]);
    assert_eq!(groups(5, 8), vec![(0, 5)]);
    assert_eq!(groups(8, 8), vec![(0, 8)]);
    assert_eq!(groups(20, 8), vec![(0, 8), (8, 16), (16, 20)]);
    assert_eq!(groups(3, 1), vec![(0, 1), (1, 2), (2, 3)]);
}
