use candle_core::{DType, Device, Tensor};
use tts::audit::{
    count_layers, header_len, is_projection, is_tensor, parse_dtype, shape_fits, Block, Entry,
    Report, Row,
};
use tts::cli::{
    check_voice, configure, engine_id, listing, parse_override, standing, text_source, Source,
    Standing,
};
use tts::engine::{EngineConfig, Refusal};
use tts::engines::{catalogue, default_id, default_root, first_id, ids, load, LoadError, Setup};
use tts::messages::{
    join, load_problem, missing_files, refused, voice_mismatch, voice_problem,
};
use tts::quant::{Format, QuantError, Weight};
use tts::voice::{rows_of, GridError, Voice, VoiceError};

fn entry(name: &str, shape: &[usize]) -> Entry {
    Entry { name: name.to_string(), shape: shape.to_vec() }
}

#[test]
fn a_header_length_is_little_endian() {
    assert_eq!(header_len(&[1, 2, 0, 0, 0, 0, 0, 0]), 513);
    assert_eq!(header_len(&[0, 0, 0, 0, 0, 0, 0, 128]), 1 << 63);
    assert_eq!(header_len(&[255; 8]), u64::MAX);
    assert!(is_tensor("a") && !is_tensor("__metadata__"));
}

#[test]
fn layers_are_counted_up_to_the_first_gap() {
    let e: Vec<Entry> = [0, 1, 2, 4]
        .iter()
        .map(|i| entry(&format!("m.layers.{i}.w"), &[1]))
        .collect();
    assert_eq!(count_layers(&e, "m.", "w"), 3);
    assert_eq!(count_layers(&e[..3].iter().map(|x| entry(&x.name, &[1])).collect(), "m.", "w"), 3);
    assert_eq!(count_layers(&e, "m.", "v"), 0);
    let many: Vec<Entry> = (0..12).map(|i| entry(&format!("layers.{i}.w"), &[1])).collect();
    assert_eq!(count_layers(&many, "", "w"), 12);
}

#[test]
fn reports_tally_their_rows() {
    let e = vec![entry("a", &[2, 3])];
    let mut r = Report::new();
    assert_eq!(r.shape(&e, "a", &vec![Some(2), None]), Row::Good);
    assert_eq!(r.shape(&e, "a", &vec![Some(2), Some(4)]), Row::Wrong);
    assert_eq!(r.shape(&e, "a", &vec![None]), Row::Wrong);
    assert_eq!(r.shape(&e, "b", &vec![None]), Row::Missing);
    assert_eq!(r.absent(&e, "b"), Row::Good);
    assert_eq!(r.absent(&e, "a"), Row::Present);
    assert_eq!(r.ints(&vec![1, 2, 3], &vec![1, 2, 3]), 3);
    assert_eq!(r.ints(&vec![1, 5, 3, 4], &vec![1, 2, 3]), 2);
    r.claim(true);
    assert_eq!((r.rows, r.failures), (9, 5));
    assert!(!r.passed());
    assert!(Report::new().passed());
    assert!(shape_fits(&vec![1], &vec![Some(1)]));
}

#[test]
fn only_projections_are_quantized() {
    assert!(is_projection("layers.3.attention.wqkv.weight"));
    assert!(is_projection("fast_layers.0.feed_forward.w2.weight"));
    assert!(!is_projection("layers.3.attention.wqkv.bias"));
    assert!(!is_projection("norm.attention.wo.weight"));
    assert!(!is_projection("embeddings.weight"));
    assert_eq!(parse_dtype("q5_1").unwrap(), Block::Q5_1);
    assert_eq!(parse_dtype("q8_0").unwrap(), Block::Q8_0);
    assert!(matches!(parse_dtype("q6_K"), Err(QuantError::LargeBlocks { .. })));
    assert!(matches!(parse_dtype("f32"), Err(QuantError::Unknown { .. })));
}

#[test]
fn overrides_split_at_the_first_equals_sign() {
    assert_eq!(
        parse_override("codec=a=b"),
        Ok(("codec".to_string(), "a=b".to_string()))
    );
    assert_eq!(parse_override("="), Ok((String::new(), String::new())));
    assert_eq!(parse_override("a=b=c"), Ok(("a".to_string(), "b=c".to_string())));
    assert_eq!(parse_override("codec"), Err("expected key=path, got \"codec\"".to_string()));
    assert_eq!(
        parse_override("a \"b\"\n"),
        Err("expected key=path, got \"a \\\"b\\\"\\n\"".to_string())
    );
}

#[test]
fn a_command_line_settles_its_sources() {
    assert!(matches!(text_source(Some("t"), Some("f")), Some(Source::Given(s)) if s == "t"));
    assert!(matches!(text_source(None, Some("f")), Some(Source::File(s)) if s == "f"));
    assert!(text_source(None, None).is_none());
    assert_eq!(engine_id(Some("x")), "x");
    assert_eq!(engine_id(None), "audio8");
    let c = configure("cosyvoice", None, None, true, Vec::new());
    assert_eq!(c.model_root, "references/cosyvoice/weights");
    assert!(c.cpu);
    let c = configure("cosyvoice", Some("r"), Some("f32".to_string()), false, Vec::new());
    assert_eq!((c.model_root.as_str(), c.quant.as_deref()), ("r", Some("f32")));
    assert_eq!(configure("x", None, None, false, Vec::new()).model_root, ".");
}

fn voice(engine: &str) -> Voice {
    let d = Device::Cpu;
    Voice {
        engine: engine.to_string(),
        name: "anna".to_string(),
        text: String::new(),
        tensors: vec![
            ("b".to_string(), Tensor::from_vec(vec![1.0f32, 2.9, 3.0, 4.0], (2, 2), &d).unwrap()),
            ("a".to_string(), Tensor::zeros(3, DType::U32, &d).unwrap()),
        ],
    }
}

#[test]
fn voices_are_held_against_the_engine() {
    assert!(check_voice("audio8", &None).is_ok());
    assert!(check_voice("audio8", &Some(voice("audio8"))).is_ok());
    let m = check_voice("audio8", &Some(voice("cosyvoice"))).err().unwrap();
    assert_eq!((m.name.as_str(), m.built_for.as_str()), ("anna", "cosyvoice"));
    let mut all = catalogue();
    assert_eq!(standing(&all, "cosyvoice"), Standing::Usable { at: 1 });
    assert_eq!(standing(&all, "nobody"), Standing::Unclaimed);
    all[1].available = false;
    assert_eq!(standing(&all, "cosyvoice"), Standing::Staged { at: 1 });
    let l = listing(&all[1]);
    assert_eq!((l.cloning, l.stream, l.state), ("asset", "no", "staged"));
    assert_eq!(first_id(&all), "audio8");
    all[0].available = false;
    assert_eq!(first_id(&all), "qwen3tts");
    assert_eq!(first_id(&Vec::new()), "audio8");
}

#[test]
fn tensors_of_a_voice_are_found_by_name() {
    let v = voice("audio8");
    assert_eq!(v.keys(), vec!["a", "b"]);
    assert_eq!(v.get("b").unwrap().dims(), &[2, 2]);
    assert_eq!(v.get_on("a", &Device::Cpu).unwrap().dims(), &[3]);
    assert_eq!(v.get_rows_u32("b").unwrap(), vec![vec![1, 2], vec![3, 4]]);
    match v.get("zz") {
        Err(VoiceError::NoTensor { name, have }) => {
            assert_eq!(name, "zz");
            assert_eq!(have, vec!["a", "b"]);
        }
        _ => panic!("expected no tensor"),
    }
    assert!(matches!(v.get_rows_u32("a"), Err(VoiceError::NotTwoDim { name }) if name == "a"));
    match v.get_on("q", &Device::Cpu) {
        Err(VoiceError::NoTensor { name, have }) => {
            assert_eq!(name, "q");
            assert_eq!(have, vec!["a", "b"]);
        }
        _ => panic!("expected no tensor"),
    }
    assert!(matches!(
        v.get_rows_u32("q"),
        Err(VoiceError::NoTensor { name, have }) if name == "q" && have == vec!["a", "b"]
    ));
    let copy = v.get_on("b", &Device::Cpu).unwrap();
    assert_eq!(copy.to_vec2::<f32>().unwrap(), vec![vec![1.0, 2.9], vec![3.0, 4.0]]);
    let t = v.get("b").unwrap().t().unwrap();
    assert_eq!(rows_of(&t).unwrap(), vec![vec![1, 3], vec![2, 4]]);
    assert!(matches!(rows_of(v.get("a").unwrap()), Err(GridError::NotTwoDim)));
}

#[test]
fn the_registry_knows_its_engines() {
    assert_eq!(ids(), vec!["audio8", "cosyvoice", "qwen3tts"]);
    assert_eq!(catalogue().len(), 3);
    assert_eq!(default_id(), "audio8");
    assert_eq!(default_root("audio8"), "references/audio8/weights");
    assert_eq!(default_root("qwen3tts"), "references/qwen3tts/weights");
    assert_eq!(default_root("other"), ".");
}

#[test]
fn engines_load_with_their_settings() {
    let set = |pairs: &[(&str, &str)], quant: Option<&str>| EngineConfig {
        model_root: "w".to_string(),
        quant: quant.map(|q| q.to_string()),
        cpu: false,
        overrides: pairs.iter().map(|(k, v)| (k.to_string(), v.to_string())).collect(),
    };
    match load("audio8", &set(&[("max_batch", "3")], None)) {
        Ok(Setup::Audio8 { files, quant, max_batch }) => {
            assert_eq!(files.weights, "w/model.safetensors");
            assert_eq!((quant, max_batch), (Some(Format::Q8_0), 3));
        }
        _ => panic!("expected audio8"),
    }
    match load("cosyvoice", &set(&[("noise", "n")], Some("f32"))) {
        Ok(Setup::CosyVoice { models, quant, flow_per_segment, llm_batch }) => {
            assert_eq!((models.noise.as_str(), models.llm.as_str()), ("n", "w/llm.safetensors"));
            assert_eq!((quant, flow_per_segment, llm_batch), (None, false, 8));
        }
        _ => panic!("expected cosyvoice"),
    }
    match load("qwen3tts", &set(&[("language", "French")], Some("f16"))) {
        Ok(Setup::Qwen3Tts { weight, language, batches, .. }) => {
            assert_eq!((weight, language, batches), (Weight::F16, Some(2061), true));
        }
        _ => panic!("expected qwen3tts"),
    }
    assert!(matches!(
        load("audio8", &set(&[("max_batch", "none")], None)),
        Err(LoadError::MaxBatch)
    ));
    assert!(matches!(
        load("audio8", &set(&[], Some("q4_K"))),
        Err(LoadError::Quant(QuantError::LargeBlocks { .. }))
    ));
    assert!(matches!(
        load("qwen3tts", &set(&[], Some("none"))),
        Err(LoadError::Quant(QuantError::Unknown { .. }))
    ));
    assert!(matches!(
        load("qwen3tts", &set(&[("language", "Elvish")], None)),
        Err(LoadError::Language(l)) if l == "Elvish"
    ));
    match load("festival", &set(&[], None)) {
        Err(LoadError::Unknown { id, available }) => {
            assert_eq!(id, "festival");
            assert_eq!(available, vec!["audio8", "cosyvoice", "qwen3tts"]);
        }
        _ => panic!("expected an unknown engine"),
    }
}

#[test]
fn reading_errors_name_the_tensor() {
    assert_eq!(tts::voice::named("x", Ok(vec![vec![1]])).unwrap(), vec![vec![1]]);
    assert!(matches!(
        tts::voice::named("x", Err(tts::voice::GridError::NotTwoDim)),
        Err(VoiceError::NotTwoDim { name }) if name == "x"
    ));
    assert!(matches!(
        tts::voice::named("y", Err(tts::voice::GridError::TooLarge)),
        Err(VoiceError::TooLarge { name }) if name == "y"
    ));
}

#[test]
fn texts_are_searched() {
    let holds = tts::audit::contains_text;
    assert!(holds("decoder.pre_transformer.x", "pre_transformer"));
    assert!(holds("abc", ""));
    assert!(holds("aab", "ab"));
    assert!(!holds("ab", "abc"));
    assert!(!holds("aXb", "ab"));
}

#[test]
fn work_is_counted() {
    let mut s = tts::engine::Stats::new();
    s.count(1, 30);
    s.count(2, 12);
    assert_eq!((s.segments, s.frames), (3, 42));
}

#[test]
fn problems_are_told_in_full() {
    let told = |id: &str, quant: Option<&str>, set: &[(&str, &str)]| {
        let mut c = EngineConfig::new("r");
        c.quant = quant.map(str::to_string);
        c.overrides = set.iter().map(|(k, v)| (k.to_string(), v.to_string())).collect();
        match load(id, &c) {
            Err(e) => load_problem(id, &e),
            Ok(_) => panic!("{id} loads"),
        }
    };
    assert_eq!(
        told("zz", None, &[]),
        "unknown engine `zz`; available: audio8, cosyvoice, qwen3tts"
    );
    assert_eq!(
        told("audio8", Some("q6_K"), &[]),
        "q6_K uses 256-element blocks; every k=896 projection fails. Use q8_0."
    );
    assert_eq!(
        told("cosyvoice", Some("q6_K"), &[]),
        "q6_K uses 256-element blocks; the LLM's k=896 projections cannot use it. Use q8_0."
    );
    assert_eq!(
        told("audio8", Some("x"), &[]),
        "unknown quant x for engine audio8; try one of \
         [\"f32\", \"q8_0\", \"q5_0\", \"q4_1\", \"q4_0\"]"
    );
    assert_eq!(
        told("qwen3tts", Some("x"), &[]),
        "engine `qwen3tts` does not support weight format `x`; it accepts \
         q8_0, f16, f32, q5_0, q4_1, q4_0"
    );
    assert_eq!(
        told("audio8", None, &[("max_batch", "0")]),
        "--set max_batch=<n> needs a positive integer"
    );
    assert_eq!(
        told("qwen3tts", None, &[("language", "Latin")]),
        "engine `qwen3tts` has no language id for `Latin`; it supports english, german, spanish, \
         chinese, japanese, french, korean, russian, italian, portuguese (or `auto`)"
    );
    assert_eq!(
        missing_files(&vec!["a".to_string(), "b".to_string()]),
        "engine `qwen3tts` is missing 2 weight file(s): a, b. Download \
         Qwen/Qwen3-TTS-12Hz-1.7B-Base into references/qwen3tts/weights — see docs/setup.md"
    );
    assert_eq!(join(&Vec::new(), ", "), "");
}

#[test]
fn voices_are_named_where_they_do_not_fit() {
    let v = voice("audio8");
    let told = |name: &str| voice_problem(&v, &v.get_rows_u32(name).unwrap_err());
    assert_eq!(
        told("zz").unwrap(),
        "voice `anna` (engine audio8) has no tensor `zz`; it has: a, b"
    );
    assert_eq!(told("a").unwrap(), "tensor `a` in voice `anna` is not 2-D");
    let m = check_voice("cosyvoice", &Some(voice("audio8"))).err().unwrap();
    assert_eq!(
        voice_mismatch("cosyvoice", &m),
        "voice `anna` was built for engine `audio8`, but `cosyvoice` was requested — voice \
         assets are not interchangeable between engines"
    );
    assert_eq!(refused("e", Refusal::Unavailable, "n"), "engine `e` is not available");
    assert_eq!(refused("e", Refusal::NoCloning, "n"), "engine `e` does not clone voices");
    assert_eq!(
        refused("e", Refusal::WrongVoice, "n"),
        "the voice was built for another engine than `e`"
    );
    assert_eq!(refused("e", Refusal::NoVoice, "n"), "n");
}
