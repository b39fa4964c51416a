use candle_core::{Device, Tensor};
use tokenizers::models::bpe::BPE;
use tokenizers::models::unigram::Unigram;
use tokenizers::models::wordlevel::WordLevel;
use tokenizers::models::wordpiece::WordPiece;
use tokenizers::pre_tokenizers::whitespace::WhitespaceSplit;
use tokenizers::Tokenizer;
use tts::audio8::ar::{
    embed_lookup, plan_batches, reachable_to_token, sample_semantic, Batch, BatchError, Frames,
};
use tts::audio8;
use tts::audio8::codec::{decode_input, CodecError};
use tts::audio8::engine::{
    capabilities, finish, in_reading_order, plan, schedule, to_decode, SpeakError,
};
use tts::audio8::prompt::{
    assemble, format_reference_text, has_speaker_tag, reference_codes, turns_plain,
    turns_reference, Prompt, PromptBuilder, PromptError,
};
use tts::assemble::Piece;
use tts::engine::{FrameRate, Refusal, SynthesisRequest};
use tts::text::clean_text;
use tts::settings::repeatable;
use tts::tokens::{keep_spoken, tokenize};
use tts::voice::{GridError, Voice, VoiceError};

#[test]
fn batch_planning_partitions_every_index_exactly_once() {
    for n in 0..40usize {
        for max in [1usize, 2, 4, 8, 16] {
            let groups = plan_batches(n, max);
            let mut seen: Vec<usize> = groups.iter().flatten().copied().collect();
            seen.sort_unstable();
            assert_eq!(seen, (0..n).collect::<Vec<_>>(), "n={n} max={max}");
            assert!(
                groups.iter().all(|g| !g.is_empty() && g.len() <= max),
                "n={n} max={max} produced {groups:?}"
            );
        }
    }
}

#[test]
fn batch_planning_fills_groups_before_starting_another() {
    assert_eq!(plan_batches(8, 8), vec![(0..8).collect::<Vec<_>>()]);
    assert_eq!(plan_batches(1, 8), vec![vec![0]]);
    assert_eq!(plan_batches(0, 8), Vec::<Vec<usize>>::new());
    let g = plan_batches(10, 8);
    assert_eq!(g.len(), 2);
    assert_eq!(g[0].len(), 8);
    assert_eq!(g[1], vec![8, 9]);
}

#[test]
fn batches_of_none_are_batches_of_one() {
    assert_eq!(plan_batches(2, 0), vec![vec![0], vec![1]]);
}

#[test]
fn speaker_tag_detection() {
    assert!(has_speaker_tag("<|speaker:0|>hello"));
    assert!(has_speaker_tag("x <|speaker:12|> y"));
    assert!(!has_speaker_tag("<|speaker:|>"));
    assert!(!has_speaker_tag("<|speaker:0|"));
    assert!(!has_speaker_tag("no tag here"));
}

#[test]
fn clean_collapses_whitespace() {
    assert_eq!(clean_text("  a \n b\tc "), "a b c");
}

#[test]
fn a_transcript_gets_a_speaker() {
    assert_eq!(format_reference_text(" hi  there "), "<|speaker:0|>hi there");
    assert_eq!(format_reference_text("<|speaker:3|> hi"), "<|speaker:3|> hi");
    assert!(has_speaker_tag("<|speaker:<|speaker:1|>"));
}

#[test]
fn turns_wrap_the_text() {
    let t = turns_plain(" Hello  there ").unwrap();
    assert_eq!(
        t.prefix,
        vec![
            "<|im_start|>system\n",
            "convert the provided text to speech",
            "<|im_end|>\n",
            "<|im_start|>user\n",
            "Hello there",
            "<|im_end|>\n",
            "<|im_start|>assistant\n<|voice|>",
        ]
    );
    assert!(t.suffix.is_empty());
    assert!(matches!(turns_plain("  "), Err(PromptError::EmptyText)));
    let t = turns_reference("Hello", "said").unwrap();
    assert_eq!(t.prefix[2], "<|speaker:0|>said");
    assert_eq!(t.suffix[2], "Hello");
    assert!(matches!(turns_reference(" ", "said"), Err(PromptError::EmptyText)));
    assert!(matches!(
        turns_reference("Hello", " "),
        Err(PromptError::NoReferenceText)
    ));
}

fn codes(n: usize, len: usize) -> Vec<Vec<u32>> {
    (0..n)
        .map(|i| (0..len).map(|t| (10 * i + t) as u32).collect())
        .collect()
}

#[test]
fn codes_stand_under_their_semantic_ids() {
    let c = codes(10, 2);
    let p = assemble(&vec![1, 2], Some(&c), &vec![3]).unwrap();
    assert_eq!(p.len, 5);
    assert_eq!(p.rows.len(), 11);
    assert_eq!(
        p.rows[0],
        vec![1, 2, audio8::cfg::SEMANTIC_BEGIN_ID, audio8::cfg::SEMANTIC_BEGIN_ID + 1, 3]
    );
    assert_eq!(p.rows[1], vec![0, 0, 0, 1, 0]);
    assert_eq!(p.rows[10], vec![0, 0, 90, 91, 0]);
    let plain = assemble(&vec![1, 2], None, &Vec::new()).unwrap();
    assert_eq!(plain.rows[0], vec![1, 2]);
    assert_eq!(plain.rows[5], vec![0, 0]);
}

#[test]
fn prompts_that_do_not_fit_are_refused() {
    assert!(matches!(
        assemble(&vec![1; 2048], None, &Vec::new()),
        Err(PromptError::TooLong { total: 2048 })
    ));
    let mut c = codes(10, 2);
    c[4].push(7);
    assert!(matches!(
        assemble(&vec![1], Some(&c), &Vec::new()),
        Err(PromptError::Ragged { row: 4 })
    ));
}

/// A word tokenizer: known words have ids from 1, everything else is 0.
fn words(known: &[&str]) -> Tokenizer {
    let vocab = std::iter::once(("<unk>".to_string(), 0u32))
        .chain(known.iter().enumerate().map(|(i, w)| (w.to_string(), i as u32 + 1)))
        .collect();
    let model = WordLevel::builder()
        .vocab(vocab)
        .unk_token("<unk>".to_string())
        .build()
        .unwrap();
    let mut t = Tokenizer::new(model);
    t.with_pre_tokenizer(Some(WhitespaceSplit));
    t
}

#[test]
fn tokens_come_from_the_tokenizer() {
    let t = words(&["hello", "world"]);
    assert!(repeatable(&t));
    assert!(repeatable(&Tokenizer::new(BPE::default())));
    let dropping = BPE::builder().dropout(0.5).build().unwrap();
    assert!(!repeatable(&Tokenizer::new(dropping)));
    assert!(repeatable(&Tokenizer::new(WordPiece::default())));
    assert!(repeatable(&Tokenizer::new(Unigram::default())));
    let segments = vec![(0, "hello world".to_string()), (0, "  ".to_string()), (3, "x hello".to_string())];
    let out = tokenize(&t, &segments, false).unwrap();
    assert_eq!(out.len(), 2);
    assert_eq!((out[0].para, out[0].chars), (0, 11));
    assert_eq!(out[0].ids, vec![1, 2]);
    assert_eq!((out[1].para, out[1].chars), (3, 7));
    assert_eq!(out[1].ids, vec![0, 1]);
    let kept = keep_spoken(&segments, &vec![Vec::new(), vec![5], Vec::new()]);
    assert_eq!(kept.len(), 1);
    assert_eq!(kept[0].ids, vec![5]);
}

#[test]
fn prompts_are_tokenized_turn_by_turn() {
    let b = PromptBuilder::new(words(&["convert", "the", "speech", "Hello", "<|im_end|>"]));
    let p = b.build(" Hello ", None).unwrap();
    // system; convert the provided text to speech; im_end; user; Hello; im_end; assistant
    assert_eq!(p.rows[0], vec![0, 1, 2, 0, 0, 0, 3, 5, 0, 4, 5, 0, 0]);
    assert_eq!(p.len, 13);
    let c = codes(10, 1);
    let p = b.build("Hello", Some((&c, "the"))).unwrap();
    assert_eq!(p.rows.len(), 11);
    assert!(p.rows[0].contains(&audio8::cfg::SEMANTIC_BEGIN_ID));
    assert_eq!(p.rows[10].iter().filter(|x| **x == 90).count(), 1);
    assert!(matches!(b.build("", None), Err(PromptError::EmptyText)));
    assert!(matches!(
        b.build("Hello", Some((&c, " "))),
        Err(PromptError::NoReferenceText)
    ));
}

#[test]
fn a_tokenizer_that_refuses_is_reported() {
    let model = WordLevel::builder().unk_token("<unk>".to_string()).build().unwrap();
    let b = PromptBuilder::new(Tokenizer::new(model));
    assert!(matches!(b.build("Hello", None), Err(PromptError::Tokenizer(_))));
    assert!(tokenize(&b.tokenizer, &vec![(0, "x".to_string())], false).is_err());
}

#[test]
fn reference_codes_need_every_codebook() {
    let d = Device::Cpu;
    let flat: Vec<i64> = (0..20).collect();
    let t = Tensor::from_vec(flat.clone(), (10, 2), &d).unwrap();
    let rows = reference_codes(&t).unwrap();
    assert_eq!(rows.len(), 10);
    assert_eq!(rows[3], vec![6, 7]);
    let t = Tensor::from_vec(flat.clone(), (4, 5), &d).unwrap();
    assert!(matches!(
        reference_codes(&t),
        Err(PromptError::Codebooks { found: 4 })
    ));
    let t = Tensor::from_vec(flat, (1, 4, 5), &d).unwrap();
    assert!(matches!(
        reference_codes(&t),
        Err(PromptError::Codes(GridError::NotTwoDim))
    ));
}

fn prompt(len: usize, x: u32) -> Prompt {
    Prompt {
        rows: (0..11).map(|_| vec![x; len]).collect(),
        len,
    }
}

fn frame(x: u32) -> Vec<u32> {
    (0..10).map(|i| x + i).collect()
}

#[test]
fn batches_align_decode_and_hand_results_back() {
    let mut b = Batch::begin(&vec![prompt(2, 5), prompt(4, 6)], 3).unwrap();
    assert_eq!(b.order, vec![1, 0]);
    assert_eq!((b.width, b.budget, b.live), (4, 3, 2));
    assert_eq!(b.pads(), vec![0, 2]);
    assert_eq!(b.lanes[1].rows[0], vec![0, 0, 5, 5]);
    assert_eq!(b.lanes[1].rows[3], vec![0, 0, 5, 5]);
    assert_eq!(b.prefill_mask().unwrap().len(), 32);
    assert!(b.decode_mask().is_some());

    let h = b.hear(&vec![151700, 151800]);
    assert_eq!(h.semantics, vec![151700, 151800]);
    assert_eq!(h.active, vec![true, true]);
    assert_eq!(b.feed(&h.semantics, &vec![frame(1), frame(2)]), 4);
    // The short prompt's lane stops, and is shed from the tail.
    let h = b.hear(&vec![151701, audio8::cfg::EOS_TOKEN_ID]);
    assert_eq!(h.active, vec![true, false]);
    assert_eq!(h.semantics, vec![151701, 0]);
    assert!(b.any_running() && !b.over());
    assert_eq!(b.feed(&h.semantics, &vec![frame(3), frame(0)]), 5);
    assert_eq!(b.live, 1);
    let h = b.hear(&vec![audio8::cfg::EOS_TOKEN_ID]);
    assert_eq!(h.active, vec![false]);
    assert!(!b.any_running() && b.over());

    let out = b.finish();
    assert_eq!(out[0][0], vec![2]);
    assert_eq!(out[1][0], vec![1, 3]);
    assert_eq!(out[1][9], vec![10, 12]);
}

#[test]
fn a_window_starts_as_zeros_and_then_records() {
    let mut b = Batch::begin(&vec![prompt(2, 5)], 3).unwrap();
    assert!(b.lanes[0].previous.is_none());
    b.hear(&vec![151700]);
    b.feed(&vec![151700], &vec![frame(1)]);
    assert_eq!(b.lanes[0].previous, Some(vec![0; 10]));
    b.hear(&vec![151701]);
    b.feed(&vec![151701], &vec![frame(2)]);
    let mut want = vec![0; 9];
    want.push(151701);
    assert_eq!(b.lanes[0].previous, Some(want));
    assert!(b.decode_mask().is_none());
}

#[test]
fn batches_without_room_are_refused() {
    assert!(matches!(
        Batch::begin(&Vec::new(), 3),
        Err(BatchError::NoPrompts)
    ));
    assert!(matches!(
        Batch::begin(&vec![prompt(2048, 1)], 3),
        Err(BatchError::NoRoom { width: 2048 })
    ));
    assert!(matches!(
        Batch::begin(&vec![prompt(4, 1)], 0),
        Err(BatchError::NoRoom { width: 4 })
    ));
    assert_eq!(Batch::begin(&vec![prompt(2047, 1)], 9).unwrap().budget, 1);
}

#[test]
fn repeated_semantic_tokens_take_the_second_draw() {
    assert_eq!(reachable_to_token(0), 151678);
    assert_eq!(reachable_to_token(4095), 155773);
    assert_eq!(reachable_to_token(4096), audio8::cfg::EOS_TOKEN_ID);
    let window = Some(vec![151680, 0]);
    assert_eq!(sample_semantic(2, Some(7), &window), 151685);
    assert_eq!(sample_semantic(3, Some(7), &window), 151681);
    assert_eq!(sample_semantic(2, None, &window), 151680);
    assert_eq!(sample_semantic(2, Some(7), &None), 151680);
    let ended = Some(vec![audio8::cfg::EOS_TOKEN_ID]);
    assert_eq!(sample_semantic(4096, Some(7), &ended), audio8::cfg::EOS_TOKEN_ID);
}

#[test]
fn frames_grow_one_code_at_a_time() {
    let mut f = Frames::begin(&vec![151688, 0, 155773]);
    assert_eq!(f.current, vec![10, 0, 4095]);
    f.push(&vec![5, 6, 7], &vec![true, false, true]);
    assert_eq!(f.current, vec![5, 0, 7]);
    assert_eq!(f.books, vec![vec![10, 5], vec![0, 0], vec![4095, 7]]);
}

#[test]
fn embeddings_look_up_one_joint_table() {
    let seq: Vec<Vec<u32>> = (0..11).map(|r| vec![100 + r, 200 + r]).collect();
    let mut other = seq.clone();
    other[0] = vec![audio8::cfg::SEMANTIC_BEGIN_ID, audio8::cfg::SEMANTIC_END_ID + 1];
    let l = embed_lookup(&vec![seq, other], 1, 1);
    assert_eq!(l.ids, vec![200, audio8::cfg::SEMANTIC_END_ID + 1]);
    assert_eq!(l.keep, vec![false, false]);
    assert_eq!(l.codes.len(), 20);
    assert_eq!(&l.codes[0..4], &[201, 201, 202 + 4096, 202 + 4096]);
    assert_eq!(l.codes[19], 210 + 9 * 4096);
}

#[test]
fn codes_are_clamped_into_their_codebooks() {
    let mut c = codes(10, 2);
    c[0] = vec![4095, 9999];
    c[3] = vec![1023, 1024];
    let flat = decode_input(&c).unwrap();
    assert_eq!(flat.len(), 20);
    assert_eq!(&flat[0..4], &[4095, 4095, 10, 11]);
    assert_eq!(&flat[6..8], &[1023, 1023]);
    assert_eq!(decode_input(&codes(9, 2)), Err(CodecError::Codebooks { got: 9 }));
    assert_eq!(decode_input(&codes(10, 0)), Err(CodecError::Empty));
    c[5].push(1);
    assert_eq!(decode_input(&c), Err(CodecError::Ragged { row: 5, len: 3 }));
}

fn voice(engine: &str, text: &str) -> Voice {
    let flat: Vec<u32> = (0..20).collect();
    Voice {
        engine: engine.to_string(),
        name: "v".to_string(),
        text: text.to_string(),
        tensors: vec![(
            "reference_codes".to_string(),
            Tensor::from_vec(flat, (10, 2), &Device::Cpu).unwrap(),
        )],
    }
}

#[test]
fn a_plan_settles_reference_and_segments() {
    let c = capabilities();
    assert_eq!(c.id, "audio8");
    assert_eq!(c.sample_rate, 44100);
    assert_eq!(c.frame_rate, FrameRate { frames: 44100, seconds: 2048 });
    let p = plan(&SynthesisRequest::new("One. Two.\nThree.")).unwrap();
    assert!(p.reference.is_none());
    assert_eq!(p.segments.len(), 2);
    let p = plan(&SynthesisRequest::new("Hi.").with_voice(voice("audio8", "said"))).unwrap();
    let r = p.reference.unwrap();
    assert_eq!(r.text, "said");
    assert_eq!(r.codes[9], vec![18, 19]);
    assert!(matches!(
        plan(&SynthesisRequest::new("Hi.").with_voice(voice("other", "said"))),
        Err(SpeakError::Refused(Refusal::WrongVoice))
    ));
    assert!(matches!(
        plan(&SynthesisRequest::new("Hi.").with_voice(voice("audio8", " "))),
        Err(SpeakError::NoTranscript)
    ));
    assert!(matches!(plan(&SynthesisRequest::new(" ")), Err(SpeakError::NoText)));
    let mut v = voice("audio8", "said");
    v.tensors.clear();
    assert!(matches!(
        plan(&SynthesisRequest::new("Hi.").with_voice(v)),
        Err(SpeakError::Voice(VoiceError::NoTensor { .. }))
    ));
}

#[test]
fn schedules_group_by_width_and_results_come_back() {
    let s = schedule(&vec![9, 3, 5], 2);
    assert_eq!(s.order, vec![1, 2, 0]);
    assert_eq!(s.groups, vec![vec![1, 2], vec![0]]);
    let results = vec![vec![vec![1]], vec![vec![2]], vec![vec![3]]];
    assert_eq!(
        in_reading_order(&s, &results),
        vec![vec![vec![3]], vec![vec![1]], vec![vec![2]]]
    );
    let segments = vec![(0, "a".to_string()), (1, "b".to_string())];
    let spoken = to_decode(&segments, &vec![vec![Vec::new(); 10], codes(10, 1)]);
    assert_eq!(spoken.len(), 1);
    let r = SynthesisRequest::new("x");
    let pieces = vec![Piece { para: 0, samples: vec![1i32] }];
    let said = finish(&r, &pieces, 0).unwrap();
    assert_eq!(said.samples, vec![1]);
    assert_eq!(said.sample_rate, 44100);
    assert!(matches!(
        finish(&r, &Vec::<Piece<i32>>::new(), 0),
        Err(SpeakError::NoAudio)
    ));
}

#[test]
fn a_layout_takes_the_codes_that_were_read() {
    let mut request = SynthesisRequest::new("Hello there.");
    let plan = audio8::engine::lay_out(&request, None).unwrap();
    assert!(plan.reference.is_none());
    assert_eq!(plan.segments, vec![(0, "Hello there.".to_string())]);

    request.voice = Some(voice("audio8", "What was said."));
    assert!(audio8::engine::check(&request).is_ok());
    let codes = vec![vec![1u32, 2], vec![3, 4]];
    let plan = audio8::engine::lay_out(&request, Some(codes.clone())).unwrap();
    let reference = plan.reference.unwrap();
    assert_eq!(reference.codes, codes);
    assert_eq!(reference.text, "What was said.");

    request.text = "  ".to_string();
    assert!(matches!(
        audio8::engine::lay_out(&request, Some(codes)),
        Err(SpeakError::NoText)
    ));
    request.voice = Some(voice("audio8", " "));
    assert!(matches!(audio8::engine::check(&request), Err(SpeakError::NoTranscript)));
    request.voice = Some(voice("cosyvoice", "x"));
    assert!(matches!(
        audio8::engine::check(&request),
        Err(SpeakError::Refused(Refusal::WrongVoice))
    ));
}
