use candle_core::{Device, Tensor};
use tts::audit::{Check, Entry, Report, Row};
use tts::engine::{validate_against, Cloning, EngineConfig, FrameRate, Refusal, SynthesisRequest};
use tts::quant::{Format, Weight};
use tts::qwen3tts;
use tts::qwen3tts::codec::{
    by_codebook, chunk_frames, chunk_plan, forward_input, keep_chunk, Chunk, CodecError,
};
use tts::qwen3tts::engine::{
    batch_cap, capabilities, distinct_first, finish, frame_budget, group, language, lanes, max_batch,
    must_rerun, parse_quant, pick_top_k, plan, reference, report_segments, spans, unspoken, Paths,
    Prepared, SegmentStat, SpeakError, ID, NO_VOICE,
};
use tts::qwen3tts::qwen3::{Geometry, StackError, State};
use tts::qwen3tts::session::{Action, Session};
use tts::voice::Voice;

#[test]
fn geometry_is_self_consistent() {
    let ratios: usize = qwen3tts::cfg::codec::upsampling_ratios().iter().product();
    let rates: usize = qwen3tts::cfg::codec::upsample_rates().iter().product();
    assert_eq!(ratios * rates, qwen3tts::cfg::SAMPLES_PER_FRAME);
    assert_eq!(qwen3tts::cfg::SAMPLE_RATE as f64 / qwen3tts::cfg::SAMPLES_PER_FRAME as f64, 12.5);

    assert_eq!(qwen3tts::cfg::predictor::HEADS_OUT + 1, qwen3tts::cfg::CODE_GROUPS);
    assert_eq!(qwen3tts::cfg::codec::QUANTIZERS, qwen3tts::cfg::CODE_GROUPS);
    assert_eq!(
        qwen3tts::cfg::codec::SEMANTIC_QUANTIZERS + qwen3tts::cfg::codec::ACOUSTIC_QUANTIZERS,
        qwen3tts::cfg::CODE_GROUPS
    );

    assert_eq!(qwen3tts::cfg::talker::CODES, qwen3tts::cfg::codec::CODEBOOK);
    assert_eq!(qwen3tts::cfg::codec::ENCODER_VALID_QUANTIZERS, qwen3tts::cfg::CODE_GROUPS);
    const { assert!(qwen3tts::cfg::codec::ENCODER_QUANTIZERS > qwen3tts::cfg::codec::ENCODER_VALID_QUANTIZERS) };
    for id in [
        qwen3tts::cfg::talker::CODEC_PAD,
        qwen3tts::cfg::talker::CODEC_BOS,
        qwen3tts::cfg::talker::CODEC_EOS,
        qwen3tts::cfg::talker::CODEC_THINK,
        qwen3tts::cfg::talker::CODEC_NOTHINK,
        qwen3tts::cfg::talker::CODEC_THINK_BOS,
        qwen3tts::cfg::talker::CODEC_THINK_EOS,
    ] {
        assert!(id as usize >= qwen3tts::cfg::talker::CODES);
        assert!((id as usize) < qwen3tts::cfg::talker::VOCAB);
    }

    assert_ne!(
        qwen3tts::cfg::predictor::HEADS * qwen3tts::cfg::predictor::HEAD_DIM,
        qwen3tts::cfg::predictor::DIM
    );
    assert_eq!(qwen3tts::cfg::talker::HEADS * qwen3tts::cfg::talker::HEAD_DIM, qwen3tts::cfg::talker::DIM);

    assert_eq!(
        qwen3tts::cfg::codec::OUT_CHANNELS,
        qwen3tts::cfg::codec::stage_channels(qwen3tts::cfg::codec::upsample_rates().len() - 1)
    );

    assert_eq!(qwen3tts::cfg::speaker::ENC_DIM, qwen3tts::cfg::talker::DIM);
}

#[test]
fn languages_have_ids_and_the_list_is_closed() {
    for name in qwen3tts::cfg::talker::languages() {
        assert!(
            qwen3tts::cfg::talker::language_id(name).is_some(),
            "no codec language id for `{name}`"
        );
    }
    assert_eq!(qwen3tts::cfg::talker::languages().len(), 10);
    assert!(qwen3tts::cfg::talker::language_id("swahili").is_none());
}

#[test]
fn refuses_without_a_voice() {
    let caps = capabilities();
    assert!(caps.available);
    assert_eq!(caps.cloning, Cloning::PrecomputedAsset);
    let request = SynthesisRequest::new("Hello.");
    assert!(validate_against(&caps, &request).is_ok());
    assert!(NO_VOICE.contains(ID));
    assert_eq!(plan(&request), Err(SpeakError::Refused(Refusal::NoVoice)));
}

#[test]
fn defaults_to_q8_0() {
    assert_eq!(capabilities().quantization[0], "q8_0");
    assert_eq!(parse_quant(None).unwrap(), Weight::Quant(Format::Q8_0));
    assert_eq!(parse_quant(Some("f32")).unwrap(), Weight::F32);
    assert_eq!(parse_quant(Some("f16")).unwrap(), Weight::F16);
    assert!(parse_quant(Some("nonsense")).is_err());
}

#[test]
fn only_dense_weights_batch() {
    assert!(!parse_quant(None).unwrap().batches());
    assert!(parse_quant(Some("f16")).unwrap().batches());
    assert!(parse_quant(Some("f32")).unwrap().batches());
}

fn voice() -> Voice {
    Voice {
        engine: "qwen3tts".to_string(),
        name: "v".to_string(),
        text: "said".to_string(),
        tensors: vec![
            (
                "ref_codes".to_string(),
                Tensor::from_vec((0u32..32).collect::<Vec<_>>(), (2, 16), &Device::Cpu).unwrap(),
            ),
            (
                "ref_text_tokens".to_string(),
                Tensor::from_vec(vec![7u32, 8], (1, 2), &Device::Cpu).unwrap(),
            ),
        ],
    }
}

#[test]
fn a_voice_says_what_it_knows_of_its_clip() {
    let r = reference(&voice());
    assert_eq!(r.codes.len(), 2);
    assert_eq!(r.codes[1][15], 31);
    assert_eq!(r.text, vec![7, 8]);
    let mut v = voice();
    v.tensors.clear();
    let r = reference(&v);
    assert!(r.codes.is_empty() && r.text.is_empty());
}

#[test]
fn plans_list_segments() {
    assert_eq!(capabilities().frame_rate, FrameRate { frames: 25, seconds: 2 });
    let p = plan(&SynthesisRequest::new("One.\nTwo.").with_voice(voice())).unwrap();
    assert_eq!(p, vec![(0, "One.".to_string()), (1, "Two.".to_string())]);
    assert_eq!(
        plan(&SynthesisRequest::new("").with_voice(voice())),
        Err(SpeakError::NoText)
    );
    let mut other = voice();
    other.engine = "cosyvoice".to_string();
    assert_eq!(
        plan(&SynthesisRequest::new("x").with_voice(other)),
        Err(SpeakError::Refused(Refusal::WrongVoice))
    );
}

#[test]
fn every_missing_file_is_named() {
    let p = Paths::resolve(&EngineConfig::new("w"));
    assert_eq!(p.talker, "w/model.safetensors");
    assert_eq!(p.codec, "w/speech_tokenizer/model.safetensors");
    assert_eq!((p.vocab.as_str(), p.merges.as_str()), ("w/vocab.json", "w/merges.txt"));
    assert_eq!(p.check(&[true, true, true, true]), Ok(()));
    assert_eq!(
        p.check(&[true, false, true, false]),
        Err(vec![p.codec.clone(), p.merges.clone()])
    );
}

#[test]
fn settings_are_read() {
    let mut c = EngineConfig::new("w");
    assert_eq!(language(&c), Ok(None));
    c.overrides.push(("language".to_string(), "Auto".to_string()));
    assert_eq!(language(&c), Ok(None));
    c.overrides.push(("language".to_string(), "GERMAN".to_string()));
    assert_eq!(language(&c), Ok(Some(2053)));
    c.overrides.push(("language".to_string(), "Klingon".to_string()));
    assert_eq!(language(&c), Err("Klingon".to_string()));
    assert_eq!(max_batch(None), 24);
    assert_eq!(max_batch(Some("3")), 3);
    assert_eq!(max_batch(Some("0")), 24);
    assert_eq!(lanes(true, None), 24);
    assert_eq!(lanes(true, Some("3")), 3);
    assert_eq!(lanes(false, Some("3")), 1);
    assert_eq!(pick_top_k(50), qwen3tts::cfg::talker::TOP_K);
    assert_eq!(pick_top_k(7), 7);
    assert_eq!(frame_budget(0), 1);
    assert_eq!(frame_budget(9999), qwen3tts::cfg::talker::MAX_NEW_TOKENS);
    assert_eq!(batch_cap(300), 300);
    assert_eq!(batch_cap(4096), 512);
}

fn ready(para: usize, chars: usize, prompt: usize) -> Prepared {
    Prepared { para, chars, prompt, trailing: 1 }
}

#[test]
fn groups_are_alike_and_short_ones_go_first() {
    let p = vec![ready(0, 30, 9), ready(0, 10, 8), ready(1, 20, 9), ready(1, 25, 9)];
    let g = group(&p, 2);
    assert_eq!(g.order, vec![2, 3, 0, 1]);
    assert_eq!(g.groups, vec![vec![2, 3], vec![0], vec![1]]);
    let g = group(&p, 1);
    assert_eq!(g.groups.len(), 4);
}

fn frames(n: usize, first: u32) -> Vec<Vec<u32>> {
    (0..n).map(|_| vec![first; 16]).collect()
}

#[test]
fn a_group_that_fills_its_cap_goes_again_singly() {
    let p = vec![ready(0, 30, 9), ready(0, 20, 9), ready(0, 10, 8)];
    let mut s = Session::begin(group(&p, 4), 600);
    assert_eq!(s.next(), Action::Together { group: 0, cap: 512 });
    assert!(s.heard_together(&vec![frames(512, 1), frames(3, 2)], &vec![0, 0]));
    assert_eq!(s.next(), Action::Alone { segment: 1, budget: 600 });
    s.heard_alone(&frames(550, 3), 2);
    assert_eq!(s.next(), Action::Alone { segment: 0, budget: 600 });
    s.heard_alone(&frames(4, 4), 0);
    assert_eq!(s.next(), Action::Alone { segment: 2, budget: 600 });
    s.heard_alone(&frames(5, 5), 1);
    assert_eq!(s.next(), Action::Done);
    let out = s.finish();
    assert_eq!((out[0].len(), out[1].len(), out[2].len()), (4, 550, 5));
    assert_eq!(unspoken(&s.left), 3);

    let mut s = Session::begin(group(&p[..2].to_vec(), 4), 600);
    assert!(!s.heard_together(&vec![frames(5, 1), frames(3, 2)], &vec![1, 0]));
    assert_eq!(s.next(), Action::Done);
    assert_eq!(s.finish()[0].len(), 3);
    assert!(must_rerun(&vec![frames(5, 1)], 5));
    assert!(!must_rerun(&vec![frames(4, 1)], 5));
}

#[test]
fn decoded_segments_become_one_run_of_frames() {
    let p = vec![ready(0, 30, 9), ready(0, 20, 9), ready(2, 10, 9)];
    let s = spans(&p, &vec![frames(2, 1), Vec::new(), frames(1, 3)]).unwrap();
    assert_eq!((s.paras.clone(), s.lens.clone()), (vec![0, 2], vec![2, 1]));
    assert_eq!(s.frames.len(), 3);
    assert_eq!(s.stats[0], SegmentStat { chars: 30, frames: 2, distinct: 1 });
    let joined = vec![1i32; 3 * 1920];
    let r = SynthesisRequest::new("x");
    let said = finish(&r, &s, &joined, 0).unwrap();
    assert_eq!(said.samples.len(), 3 * 1920 + 24 * 320);
    assert_eq!(said.sample_rate, 24000);
    assert!(matches!(finish(&r, &s, &[], 0i32), Err(SpeakError::NoAudio)));
    assert!(matches!(
        spans(&p, &vec![Vec::new(), Vec::new(), Vec::new()]),
        Err(SpeakError::NoFrames)
    ));
    assert_eq!(
        distinct_first(&vec![vec![1, 9], vec![2, 9], vec![1, 8]]),
        2
    );
}

#[test]
fn odd_segments_are_flagged() {
    let s = |chars: usize, frames: usize, distinct: usize| SegmentStat { chars, frames, distinct };
    assert!(report_segments(&vec![s(50, 50, 50), s(50, 50, 50)]).is_none());
    let v = report_segments(&vec![s(50, 50, 50), s(50, 60, 5), s(50, 300, 300)]).unwrap();
    assert_eq!(v.median, 1);
    assert_eq!(v.long, vec![false, false, true]);
    assert_eq!(v.degenerate, vec![false, true, false]);
    assert!(report_segments(&vec![s(50, 0, 0), s(50, 0, 0), s(50, 9, 9)]).is_none());
}

#[test]
fn frames_turn_into_codebooks() {
    let f: Vec<Vec<u32>> = (0..2).map(|t| (0..16).map(|i| 100 * t + i).collect()).collect();
    let b = by_codebook(&f).unwrap();
    assert_eq!(b.len(), 16);
    assert_eq!(b[3], vec![3, 103]);
    assert_eq!(forward_input(&f).unwrap(), b);
    assert_eq!(forward_input(&Vec::new()), Err(CodecError::NoFrames));
    assert_eq!(by_codebook(&vec![vec![1; 15]]), Err(CodecError::Frame { codes: 15 }));
}

#[test]
fn chunks_carry_their_context() {
    let c = chunk_plan(700);
    assert_eq!(
        c,
        vec![
            Chunk { start: 0, end: 300, context: 0 },
            Chunk { start: 300, end: 600, context: 25 },
            Chunk { start: 600, end: 700, context: 25 },
        ]
    );
    assert!(chunk_plan(0).is_empty());
    let f: Vec<Vec<u32>> = (0..700).map(|i| vec![i]).collect();
    let part = chunk_frames(&f, &c[2]);
    assert_eq!((part.len(), part[0][0]), (125, 575));
    let mut out = vec![0u8];
    keep_chunk(&mut out, &vec![7u8; 26 * 1920], 25);
    assert_eq!(out.len(), 1 + 1920);
}

#[test]
fn a_stack_keeps_count_of_its_cache() {
    let geo = Geometry {
        dim: 2048,
        layers: 28,
        heads: 16,
        n_kv: 8,
        head_dim: 128,
        ffn: 6144,
        qk_norm: true,
        layer_scale: false,
        window: Some(4),
    };
    assert_eq!((geo.gqa(), geo.q_width(), geo.kv_width()), (2, 2048, 1024));
    let mut s = State::new_state_with(2, 99, 6);
    assert_eq!(s.capacity, 6);
    let p = s.forward(&geo, 2, 5, 2048).unwrap();
    assert_eq!((p.start, p.span, p.window_start), (0, 5, 1));
    assert_eq!((p.keys_at, p.values_at), (2048, 3072));
    assert_eq!(s.forward(&geo, 1, 1, 2048), Err(StackError::Batch { got: 1, want: 2 }));
    assert_eq!(s.forward(&geo, 2, 1, 7), Err(StackError::Width { got: 7, want: 2048 }));
    assert_eq!(
        s.forward(&geo, 2, 2, 2048),
        Err(StackError::Capacity { positions: 7, capacity: 6 })
    );
    assert_eq!(s.forward(&geo, 2, 1, 2048).unwrap().window_start, 2);
    assert_eq!(State::new_state_with(1, 0, 6).capacity, 1);
    assert!(geo.fits());
    assert!(!Geometry { heads: usize::MAX, ..geo }.fits());
}

#[test]
fn a_reference_is_what_could_be_read() {
    let r = qwen3tts::engine::reference_of(Some(vec![vec![1, 2]]), Some(vec![vec![7, 8], vec![9]]));
    assert_eq!(r.codes, vec![vec![1, 2]]);
    assert_eq!(r.text, vec![7, 8]);
    let r = qwen3tts::engine::reference_of(None, Some(Vec::new()));
    assert!(r.codes.is_empty());
    assert!(r.text.is_empty());
}

/// A header that holds what the checks want, with any size where they leave one free.
fn header_for(checks: &Vec<Check>) -> Vec<Entry> {
    checks
        .iter()
        .filter_map(|c| {
            c.want.as_ref().map(|want| Entry {
                name: c.name.to_string(),
                shape: want.iter().map(|n| n.unwrap_or(7)).collect(),
            })
        })
        .collect()
}

fn entry(name: &str, shape: &[usize]) -> Entry {
    Entry {
        name: name.to_string(),
        shape: shape.to_vec(),
    }
}

#[test]
fn a_talker_is_held_against_its_table() {
    let checks = qwen3tts::audit::talker_checks();
    assert_eq!(checks.len(), 19);
    assert_eq!(checks[1].name, "talker.model.layers.0.self_attn.k_proj.weight");
    assert_eq!(checks[1].want, Some(vec![Some(1024), Some(2048)]));
    assert_eq!(checks[4].want, None);
    let mut header = header_for(&checks);
    let mut report = Report::new();
    let rows = report.check_all(&header, &checks);
    assert!(rows.iter().all(|r| *r == Row::Good));
    assert_eq!((report.rows, report.failures), (19, 0));

    header[0].shape[0] += 1;
    header.push(entry("talker.model.layers.0.self_attn.q_proj.bias", &[2048]));
    let lost = header.remove(1);
    let rows = report.check_all(&header, &checks);
    assert_eq!(rows[0], Row::Wrong);
    assert_eq!(rows[1], Row::Missing);
    assert_eq!(rows[4], Row::Present);
    assert_eq!((report.rows, report.failures), (38, 3));
    assert_eq!(lost.name, checks[1].name);
    assert!(!report.passed());
}

#[test]
fn the_predictor_and_the_codec_have_tables() {
    for checks in [qwen3tts::audit::predictor_checks(), qwen3tts::audit::codec_checks()] {
        let header = header_for(&checks);
        let mut report = Report::new();
        report.check_all(&header, &checks);
        assert!(report.passed());
    }
    let last = qwen3tts::audit::predictor_checks().pop().unwrap();
    assert_eq!(last.name, "speaker_encoder.fc.weight");
    assert_eq!(last.want, Some(vec![Some(2048), None, Some(1)]));
}

#[test]
fn a_talker_is_claimed_as_a_whole() {
    let mut header = Vec::new();
    for i in 0..28 {
        header.push(entry(&format!("talker.model.layers.{i}.self_attn.q_proj.weight"), &[1]));
    }
    for i in 0..5 {
        let name = format!("talker.code_predictor.model.layers.{i}.self_attn.q_proj.weight");
        header.push(entry(&name, &[1]));
    }
    for i in 0..15 {
        header.push(entry(&format!("talker.code_predictor.lm_head.{i}.weight"), &[1]));
        header.push(entry(&format!("talker.code_predictor.model.codec_embedding.{i}.weight"), &[1]));
    }
    header.push(entry("talker.text_projection.linear_fc1.bias", &[1]));
    header.push(entry("talker.text_projection.linear_fc2.bias", &[1]));
    let claims = qwen3tts::audit::talker_claims(&header);
    assert_eq!(claims.len(), 6);
    assert!(claims.iter().all(|c| c.ok));

    header.push(entry("talker.model.layers.28.self_attn.q_proj.weight", &[1]));
    header.retain(|e| e.name != "talker.code_predictor.lm_head.3.weight");
    header.retain(|e| e.name != "talker.text_projection.linear_fc2.bias");
    let claims = qwen3tts::audit::talker_claims(&header);
    let ok: Vec<bool> = claims.iter().map(|c| c.ok).collect();
    assert_eq!(ok, vec![false, false, true, false, true, true]);
    assert_eq!(claims[3].name, "predictor head count");
    let mut report = Report::new();
    report.claim_all(&claims);
    assert_eq!((report.rows, report.failures), (6, 3));
}

#[test]
fn a_codec_is_claimed_as_a_whole() {
    let mut header = Vec::new();
    for i in 0..8 {
        let name = format!("decoder.pre_transformer.layers.{i}.self_attn.q_proj.weight");
        header.push(entry(&name, &[1024, 512]));
    }
    for i in 0..15 {
        let name = format!("decoder.quantizer.rvq_rest.vq.layers.{i}._codebook.embedding_sum");
        header.push(entry(&name, &[2048, 256]));
    }
    let first = "decoder.quantizer.rvq_first.vq.layers.0._codebook";
    header.push(entry(&format!("{first}.embedding_sum"), &[2048, 256]));
    header.push(entry(&format!("{first}.cluster_usage"), &[2048]));
    let claims = qwen3tts::audit::codec_claims(&header);
    assert_eq!(claims.len(), 5);
    assert!(claims.iter().all(|c| c.ok));
    assert_eq!(qwen3tts::audit::pre_query_at(&header), Some(0));
    assert_eq!(qwen3tts::audit::count_rest_tables(&header), 15);

    header[0].shape[1] = 300;
    header.retain(|e| !e.name.contains("layers.7."));
    header.retain(|e| !e.name.contains("rvq_rest.vq.layers.14."));
    header.retain(|e| !e.name.ends_with("cluster_usage"));
    header.iter_mut().filter(|e| e.name.contains("rvq_first")).for_each(|e| e.shape[0] = 4096);
    let ok: Vec<bool> =
        qwen3tts::audit::codec_claims(&header).iter().map(|c| c.ok).collect();
    assert_eq!(ok, vec![false, false, false, false, false]);
    assert!(qwen3tts::audit::has_pre_layers(&header, 7));
}
