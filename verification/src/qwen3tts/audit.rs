//! What the checkpoints of `qwen3tts` have to hold, from their headers alone.

use crate::audit;
use crate::audit::{add_claim, add_gone, add_one, add_three, add_two, contains_text, count_layers,
    count_numbered, counts_to, find, gone, lists, mentions, one, stands_at, three, two, Check, Claim,
    Entry, Wanted};
use crate::chars::{byte_len, ends_with, len_bytes};
use crate::number;
use crate::number::write_usize;
use crate::qwen3tts::cfg::codec;
use crate::qwen3tts::cfg::predictor;
use crate::qwen3tts::cfg::speaker;
use crate::qwen3tts::cfg::talker;
use vstd::prelude::*;

verus! {

/// The talker's tensors: the first layer stands for all of them. There are no attention biases,
/// and the two norms are those of queries and keys.
pub open spec fn talker_table() -> Seq<Wanted> {
    seq![
        two(
            "talker.model.layers.0.self_attn.q_proj.weight"@,
            (talker::HEADS * talker::HEAD_DIM) as usize,
            talker::DIM,
        ),
        two(
            "talker.model.layers.0.self_attn.k_proj.weight"@,
            (talker::N_KV * talker::HEAD_DIM) as usize,
            talker::DIM,
        ),
        two(
            "talker.model.layers.0.self_attn.v_proj.weight"@,
            (talker::N_KV * talker::HEAD_DIM) as usize,
            talker::DIM,
        ),
        two(
            "talker.model.layers.0.self_attn.o_proj.weight"@,
            talker::DIM,
            (talker::HEADS * talker::HEAD_DIM) as usize,
        ),
        gone("talker.model.layers.0.self_attn.q_proj.bias"@),
        gone("talker.model.layers.0.self_attn.k_proj.bias"@),
        one("talker.model.layers.0.self_attn.q_norm.weight"@, talker::HEAD_DIM),
        one("talker.model.layers.0.self_attn.k_norm.weight"@, talker::HEAD_DIM),
        two("talker.model.layers.0.mlp.gate_proj.weight"@, talker::FFN, talker::DIM),
        two("talker.model.layers.0.mlp.up_proj.weight"@, talker::FFN, talker::DIM),
        two("talker.model.layers.0.mlp.down_proj.weight"@, talker::DIM, talker::FFN),
        one("talker.model.layers.0.input_layernorm.weight"@, talker::DIM),
        one("talker.model.layers.0.post_attention_layernorm.weight"@, talker::DIM),
        one("talker.model.norm.weight"@, talker::DIM),
        two("talker.model.codec_embedding.weight"@, talker::VOCAB, talker::DIM),
        two("talker.codec_head.weight"@, talker::VOCAB, talker::DIM),
        two("talker.model.text_embedding.weight"@, talker::TEXT_VOCAB, talker::TEXT_DIM),
        two("talker.text_projection.linear_fc1.weight"@, talker::TEXT_DIM, talker::TEXT_DIM),
        two("talker.text_projection.linear_fc2.weight"@, talker::DIM, talker::TEXT_DIM),
    ]
}

/// What the talker has to hold.
pub fn talker_checks() -> (v: Vec<Check>)
    ensures
        audit::wanted(v@) == talker_table(),
{
    let mut v: Vec<Check> = Vec::new();
    let q: usize = talker::HEADS * talker::HEAD_DIM;
    let kv: usize = talker::N_KV * talker::HEAD_DIM;
    assert(audit::wanted(v@) =~= Seq::empty());
    add_two(&mut v, "talker.model.layers.0.self_attn.q_proj.weight", q, talker::DIM);
    add_two(&mut v, "talker.model.layers.0.self_attn.k_proj.weight", kv, talker::DIM);
    add_two(&mut v, "talker.model.layers.0.self_attn.v_proj.weight", kv, talker::DIM);
    add_two(&mut v, "talker.model.layers.0.self_attn.o_proj.weight", talker::DIM, q);
    add_gone(&mut v, "talker.model.layers.0.self_attn.q_proj.bias");
    add_gone(&mut v, "talker.model.layers.0.self_attn.k_proj.bias");
    add_one(&mut v, "talker.model.layers.0.self_attn.q_norm.weight", talker::HEAD_DIM);
    add_one(&mut v, "talker.model.layers.0.self_attn.k_norm.weight", talker::HEAD_DIM);
    add_two(&mut v, "talker.model.layers.0.mlp.gate_proj.weight", talker::FFN, talker::DIM);
    add_two(&mut v, "talker.model.layers.0.mlp.up_proj.weight", talker::FFN, talker::DIM);
    add_two(&mut v, "talker.model.layers.0.mlp.down_proj.weight", talker::DIM, talker::FFN);
    add_one(&mut v, "talker.model.layers.0.input_layernorm.weight", talker::DIM);
    add_one(&mut v, "talker.model.layers.0.post_attention_layernorm.weight", talker::DIM);
    add_one(&mut v, "talker.model.norm.weight", talker::DIM);
    add_two(&mut v, "talker.model.codec_embedding.weight", talker::VOCAB, talker::DIM);
    add_two(&mut v, "talker.codec_head.weight", talker::VOCAB, talker::DIM);
    add_two(&mut v, "talker.model.text_embedding.weight", talker::TEXT_VOCAB, talker::TEXT_DIM);
    add_two(&mut v, "talker.text_projection.linear_fc1.weight", talker::TEXT_DIM, talker::TEXT_DIM);
    add_two(&mut v, "talker.text_projection.linear_fc2.weight", talker::DIM, talker::TEXT_DIM);
    v
}

/// The depth predictor's tensors, which travel with the talker's, and the speaker encoder's last
/// layer. The predictor's heads are wider than its stream.
pub open spec fn predictor_table() -> Seq<Wanted> {
    seq![
        two(
            "talker.code_predictor.model.layers.0.self_attn.q_proj.weight"@,
            (predictor::HEADS * predictor::HEAD_DIM) as usize,
            predictor::DIM,
        ),
        two(
            "talker.code_predictor.model.layers.0.self_attn.k_proj.weight"@,
            (predictor::N_KV * predictor::HEAD_DIM) as usize,
            predictor::DIM,
        ),
        two(
            "talker.code_predictor.model.layers.0.self_attn.o_proj.weight"@,
            predictor::DIM,
            (predictor::HEADS * predictor::HEAD_DIM) as usize,
        ),
        one("talker.code_predictor.model.layers.0.self_attn.q_norm.weight"@, predictor::HEAD_DIM),
        two("talker.code_predictor.model.layers.0.mlp.gate_proj.weight"@, predictor::FFN, predictor::DIM),
        two("talker.code_predictor.model.layers.0.mlp.down_proj.weight"@, predictor::DIM, predictor::FFN),
        one("talker.code_predictor.model.norm.weight"@, predictor::DIM),
        two("talker.code_predictor.small_to_mtp_projection.weight"@, predictor::DIM, predictor::EMBED_DIM),
        one("talker.code_predictor.small_to_mtp_projection.bias"@, predictor::DIM),
        two("talker.code_predictor.lm_head.0.weight"@, predictor::VOCAB, predictor::DIM),
        two("talker.code_predictor.model.codec_embedding.0.weight"@, predictor::VOCAB, predictor::EMBED_DIM),
        three("speaker_encoder.fc.weight"@, Some(speaker::ENC_DIM), None, Some(1)),
    ]
}

/// What the depth predictor and the speaker encoder have to hold.
pub fn predictor_checks() -> (v: Vec<Check>)
    ensures
        audit::wanted(v@) == predictor_table(),
{
    let mut v: Vec<Check> = Vec::new();
    let q: usize = predictor::HEADS * predictor::HEAD_DIM;
    let kv: usize = predictor::N_KV * predictor::HEAD_DIM;
    assert(audit::wanted(v@) =~= Seq::empty());
    add_two(&mut v, "talker.code_predictor.model.layers.0.self_attn.q_proj.weight", q, predictor::DIM);
    add_two(&mut v, "talker.code_predictor.model.layers.0.self_attn.k_proj.weight", kv, predictor::DIM);
    add_two(&mut v, "talker.code_predictor.model.layers.0.self_attn.o_proj.weight", predictor::DIM, q);
    add_one(&mut v, "talker.code_predictor.model.layers.0.self_attn.q_norm.weight", predictor::HEAD_DIM);
    add_two(&mut v, "talker.code_predictor.model.layers.0.mlp.gate_proj.weight", predictor::FFN, predictor::DIM);
    add_two(&mut v, "talker.code_predictor.model.layers.0.mlp.down_proj.weight", predictor::DIM, predictor::FFN);
    add_one(&mut v, "talker.code_predictor.model.norm.weight", predictor::DIM);
    add_two(
        &mut v,
        "talker.code_predictor.small_to_mtp_projection.weight",
        predictor::DIM,
        predictor::EMBED_DIM,
    );
    add_one(&mut v, "talker.code_predictor.small_to_mtp_projection.bias", predictor::DIM);
    add_two(&mut v, "talker.code_predictor.lm_head.0.weight", predictor::VOCAB, predictor::DIM);
    add_two(
        &mut v,
        "talker.code_predictor.model.codec_embedding.0.weight",
        predictor::VOCAB,
        predictor::EMBED_DIM,
    );
    add_three(&mut v, "speaker_encoder.fc.weight", Some(speaker::ENC_DIM), None, Some(1));
    v
}

/// The claims about the talker's checkpoint as a whole.
pub open spec fn talker_statements(e: Seq<Entry>) -> Seq<(Seq<char>, bool)> {
    seq![
        (
            "talker layer count"@,
            counts_to(
                e,
                "talker.model."@ + "layers."@,
                "."@ + "self_attn.q_proj.weight"@,
                talker::LAYERS as nat,
            ),
        ),
        (
            "text_projection is biased"@,
            lists(e, "talker.text_projection.linear_fc1.bias"@) && lists(
                e,
                "talker.text_projection.linear_fc2.bias"@,
            ) == talker::TEXT_PROJECTION_BIAS,
        ),
        (
            "predictor layer count"@,
            counts_to(
                e,
                "talker.code_predictor.model."@ + "layers."@,
                "."@ + "self_attn.q_proj.weight"@,
                predictor::LAYERS as nat,
            ),
        ),
        (
            "predictor head count"@,
            counts_to(
                e,
                "talker.code_predictor.lm_head."@,
                ".weight"@,
                predictor::HEADS_OUT as nat,
            ),
        ),
        (
            "predictor codebook tables"@,
            counts_to(
                e,
                "talker.code_predictor.model.codec_embedding."@,
                ".weight"@,
                predictor::HEADS_OUT as nat,
            ),
        ),
        ("x-vector width equals the talker's hidden size"@, speaker::ENC_DIM == talker::DIM),
    ]
}

fn present(e: &Vec<Entry>, name: &str) -> (r: bool)
    ensures
        r == lists(e@, name@),
{
    match find(e, name) {
        Some(i) => {
            assert(e@[i as int].name@ == name@);
            true
        },
        None => false,
    }
}

/// Holds the talker's header against the claims.
pub fn talker_claims(e: &Vec<Entry>) -> (v: Vec<Claim>)
    ensures
        audit::claimed(v@) == talker_statements(e@),
{
    let mut v: Vec<Claim> = Vec::new();
    assert(audit::claimed(v@) =~= Seq::empty());
    let layers: usize = count_layers(e, "talker.model.", "self_attn.q_proj.weight");
    add_claim(&mut v, "talker layer count", layers == talker::LAYERS);
    let biased = present(e, "talker.text_projection.linear_fc1.bias") && present(
        e,
        "talker.text_projection.linear_fc2.bias",
    ) == talker::TEXT_PROJECTION_BIAS;
    add_claim(&mut v, "text_projection is biased", biased);
    let deep: usize = count_layers(e, "talker.code_predictor.model.", "self_attn.q_proj.weight");
    add_claim(&mut v, "predictor layer count", deep == predictor::LAYERS);
    let heads: usize = count_numbered(e, "talker.code_predictor.lm_head.", ".weight");
    add_claim(&mut v, "predictor head count", heads == predictor::HEADS_OUT);
    let tables: usize = count_numbered(
        e,
        "talker.code_predictor.model.codec_embedding.",
        ".weight",
    );
    add_claim(&mut v, "predictor codebook tables", tables == predictor::HEADS_OUT);
    add_claim(&mut v, "x-vector width equals the talker's hidden size", speaker::ENC_DIM == talker::DIM);
    proof {
        lemma_counted(
            e@,
            "talker.model."@ + "layers."@,
            "."@ + "self_attn.q_proj.weight"@,
            layers as nat,
            talker::LAYERS as nat,
        );
        lemma_counted(
            e@,
            "talker.code_predictor.model."@ + "layers."@,
            "."@ + "self_attn.q_proj.weight"@,
            deep as nat,
            predictor::LAYERS as nat,
        );
        lemma_counted(
            e@,
            "talker.code_predictor.lm_head."@,
            ".weight"@,
            heads as nat,
            predictor::HEADS_OUT as nat,
        );
        lemma_counted(
            e@,
            "talker.code_predictor.model.codec_embedding."@,
            ".weight"@,
            tables as nat,
            predictor::HEADS_OUT as nat,
        );
    }
    v
}

/// What was counted is what is wanted exactly where the header counts to that.
proof fn lemma_counted(e: Seq<Entry>, before: Seq<char>, after: Seq<char>, found: nat, want: nat)
    requires
        counts_to(e, before, after, found),
    ensures
        counts_to(e, before, after, want) == (found == want),
{
    if counts_to(e, before, after, want) {
        audit::counts_are_exact(e, before, after, found, want);
    }
}

/// The codec's tensors. Both kinds of codebook have one size, and the quantizers project in and
/// out on their own.
pub open spec fn codec_table() -> Seq<Wanted> {
    seq![
        two(
            "decoder.quantizer.rvq_first.vq.layers.0._codebook.embedding_sum"@,
            codec::CODEBOOK,
            codec::QUANTIZER_INNER,
        ),
        two(
            "decoder.quantizer.rvq_rest.vq.layers.0._codebook.embedding_sum"@,
            codec::CODEBOOK,
            codec::QUANTIZER_INNER,
        ),
        one("decoder.quantizer.rvq_first.vq.layers.0._codebook.cluster_usage"@, codec::CODEBOOK),
        three(
            "decoder.quantizer.rvq_first.input_proj.weight"@,
            Some(codec::QUANTIZER_INNER),
            Some(codec::CODEBOOK_DIM),
            Some(1),
        ),
        three(
            "decoder.quantizer.rvq_first.output_proj.weight"@,
            Some(codec::CODEBOOK_DIM),
            Some(codec::QUANTIZER_INNER),
            Some(1),
        ),
        gone("decoder.quantizer.rvq_first.vq.layers.0.project_out.weight"@),
        two("decoder.pre_transformer.input_proj.weight"@, codec::TF_DIM, codec::LATENT_DIM),
        two("decoder.pre_transformer.output_proj.weight"@, codec::LATENT_DIM, codec::TF_DIM),
    ]
}

/// What the codec has to hold.
pub fn codec_checks() -> (v: Vec<Check>)
    ensures
        audit::wanted(v@) == codec_table(),
{
    let mut v: Vec<Check> = Vec::new();
    assert(audit::wanted(v@) =~= Seq::empty());
    add_two(
        &mut v,
        "decoder.quantizer.rvq_first.vq.layers.0._codebook.embedding_sum",
        codec::CODEBOOK,
        codec::QUANTIZER_INNER,
    );
    add_two(
        &mut v,
        "decoder.quantizer.rvq_rest.vq.layers.0._codebook.embedding_sum",
        codec::CODEBOOK,
        codec::QUANTIZER_INNER,
    );
    add_one(
        &mut v,
        "decoder.quantizer.rvq_first.vq.layers.0._codebook.cluster_usage",
        codec::CODEBOOK,
    );
    add_three(
        &mut v,
        "decoder.quantizer.rvq_first.input_proj.weight",
        Some(codec::QUANTIZER_INNER),
        Some(codec::CODEBOOK_DIM),
        Some(1),
    );
    add_three(
        &mut v,
        "decoder.quantizer.rvq_first.output_proj.weight",
        Some(codec::CODEBOOK_DIM),
        Some(codec::QUANTIZER_INNER),
        Some(1),
    );
    add_gone(&mut v, "decoder.quantizer.rvq_first.vq.layers.0.project_out.weight");
    add_two(&mut v, "decoder.pre_transformer.input_proj.weight", codec::TF_DIM, codec::LATENT_DIM);
    add_two(&mut v, "decoder.pre_transformer.output_proj.weight", codec::LATENT_DIM, codec::TF_DIM);
    v
}

/// Two names have the same shape in the header, or are both missing.
pub open spec fn alike(e: Seq<Entry>, a: Seq<char>, b: Seq<char>) -> bool {
    if lists(e, a) && lists(e, b) {
        e[audit::first_place(e, a)].shape@ == e[audit::first_place(e, b)].shape@
    } else {
        lists(e, a) == lists(e, b)
    }
}

fn same_shape(e: &Vec<Entry>, a: &str, b: &str) -> (r: bool)
    ensures
        r == alike(e@, a@, b@),
{
    match (find(e, a), find(e, b)) {
        (Some(i), Some(j)) => {
            assert(e@[i as int].name@ == a@ && e@[j as int].name@ == b@);
            assert(stands_at(e@, a@, i as int) && stands_at(e@, b@, j as int));
            equal_sizes(&e[i].shape, &e[j].shape)
        },
        (None, None) => true,
        (Some(i), None) => {
            assert(e@[i as int].name@ == a@);
            false
        },
        (None, Some(j)) => {
            assert(e@[j as int].name@ == b@);
            false
        },
    }
}

fn equal_sizes(a: &Vec<usize>, b: &Vec<usize>) -> (r: bool)
    ensures
        r == (a@ == b@),
{
    if a.len() != b.len() {
        return false;
    }
    let mut i: usize = 0;
    while i < a.len()
        invariant
            i <= a@.len() == b@.len(),
            forall|j: int| 0 <= j < i ==> a@[j] == b@[j],
        decreases a@.len() - i,
    {
        if a[i] != b[i] {
            return false;
        }
        i += 1;
    }
    assert(a@ =~= b@);
    true
}

/// A query projection of the pre-transformer.
pub open spec fn pre_query(name: Seq<char>) -> bool {
    mentions(name, "pre_transformer"@) && "q_proj.weight"@.is_suffix_of(name)
}

/// The `i`-th tensor is the first of the shortest names among the pre-transformer's query
/// projections.
pub open spec fn plainest(e: Seq<Entry>, i: int) -> bool {
    &&& 0 <= i < e.len()
    &&& pre_query(e[i].name@)
    &&& forall|j: int|
        0 <= j < e.len() && pre_query((#[trigger] e[j]).name@) ==> byte_len(e[i].name@) < byte_len(
            e[j].name@,
        ) || byte_len(e[i].name@) == byte_len(e[j].name@) && i <= j
}

/// The pre-transformer's plainest query projection, if it has one.
pub fn pre_query_at(e: &Vec<Entry>) -> (r: Option<usize>)
    ensures
        match r {
            Some(i) => plainest(e@, i as int),
            None => forall|j: int| 0 <= j < e@.len() ==> !pre_query((#[trigger] e@[j]).name@),
        },
{
    let mut best: Option<usize> = None;
    let mut i: usize = 0;
    while i < e.len()
        invariant
            i <= e@.len(),
            match best {
                Some(b) => b < i && pre_query(e@[b as int].name@) && forall|j: int|
                    0 <= j < i && pre_query((#[trigger] e@[j]).name@) ==> byte_len(
                        e@[b as int].name@,
                    ) < byte_len(e@[j].name@) || byte_len(e@[b as int].name@) == byte_len(
                        e@[j].name@,
                    ) && b <= j,
                None => forall|j: int| 0 <= j < i ==> !pre_query((#[trigger] e@[j]).name@),
            },
        decreases e@.len() - i,
    {
        let name = e[i].name.as_str();
        if contains_text(name, "pre_transformer") && ends_with(name, "q_proj.weight") {
            let shorter = match best {
                Some(b) => len_bytes(name) < len_bytes(e[b].name.as_str()),
                None => true,
            };
            if shorter {
                best = Some(i);
            }
        }
        i += 1;
    }
    best
}

/// A width that the pre-transformer may run at.
pub open spec fn runs_at(shape: Seq<usize>) -> bool {
    shape.len() > 1 && (shape[1] == codec::TF_DIM || shape[1] == codec::LATENT_DIM)
}

/// The header has a tensor of layer `i` of the pre-transformer.
pub open spec fn pre_layer(e: Seq<Entry>, i: nat) -> bool {
    exists|k: int|
        0 <= k < e.len() && mentions((#[trigger] e[k]).name@, "pre_transformer"@) && mentions(
            e[k].name@,
            "layers."@ + number::written(i) + "."@,
        )
}

/// The pre-transformer has layers up to `n`, counting up from 0 to the first that is missing.
pub open spec fn pre_layers(e: Seq<Entry>, n: nat) -> bool {
    (forall|i: nat| i < n ==> #[trigger] pre_layer(e, i)) && !pre_layer(e, n)
}

fn has_pre_layer(e: &Vec<Entry>, i: usize) -> (r: bool)
    ensures
        r == pre_layer(e@, i as nat),
{
    let digits = write_usize(i);
    let mut part = String::new();
    part.append("layers.");
    part.append(digits.as_str());
    part.append(".");
    assert(part@ =~= "layers."@ + number::written(i as nat) + "."@);
    let mut k: usize = 0;
    while k < e.len()
        invariant
            k <= e@.len(),
            part@ == "layers."@ + number::written(i as nat) + "."@,
            forall|j: int|
                0 <= j < k ==> !(mentions((#[trigger] e@[j]).name@, "pre_transformer"@) && mentions(
                    e@[j].name@,
                    part@,
                )),
        decreases e@.len() - k,
    {
        let name = e[k].name.as_str();
        if contains_text(name, "pre_transformer") && contains_text(name, part.as_str()) {
            assert(mentions(e@[k as int].name@, "pre_transformer"@));
            return true;
        }
        k += 1;
    }
    false
}

/// Has the pre-transformer `n` layers?
pub fn has_pre_layers(e: &Vec<Entry>, n: usize) -> (r: bool)
    ensures
        r == pre_layers(e@, n as nat),
{
    let mut i: usize = 0;
    while i < n
        invariant
            i <= n,
            forall|j: nat| j < i ==> #[trigger] pre_layer(e@, j),
        decreases n - i,
    {
        if !has_pre_layer(e, i) {
            return false;
        }
        i += 1;
    }
    !has_pre_layer(e, n)
}

/// The entries of the later quantizers' codebooks.
pub open spec fn rest_tables(e: Seq<Entry>) -> nat
    decreases e.len(),
{
    if e.len() == 0 {
        0
    } else {
        rest_tables(e.drop_last()) + if mentions(e.last().name@, "rvq_rest"@) && mentions(
            e.last().name@,
            "embed"@,
        ) {
            1nat
        } else {
            0
        }
    }
}

/// How many entries of the later quantizers' codebooks there are.
pub fn count_rest_tables(e: &Vec<Entry>) -> (n: usize)
    ensures
        n == rest_tables(e@),
{
    let mut n: usize = 0;
    let mut i: usize = 0;
    assert(e@.take(0) =~= Seq::empty());
    while i < e.len()
        invariant
            i <= e@.len(),
            n <= i,
            n == rest_tables(e@.take(i as int)),
        decreases e@.len() - i,
    {
        assert(e@.take(i + 1).drop_last() =~= e@.take(i as int));
        let name = e[i].name.as_str();
        if contains_text(name, "rvq_rest") && contains_text(name, "embed") {
            n += 1;
        }
        i += 1;
    }
    assert(e@.take(i as int) =~= e@);
    n
}

/// The claims about the codec's checkpoint as a whole.
pub open spec fn codec_statements(e: Seq<Entry>) -> Seq<(Seq<char>, bool)> {
    seq![
        (
            "semantic and acoustic codebooks are the same size"@,
            alike(
                e,
                "decoder.quantizer.rvq_first.vq.layers.0._codebook.embedding_sum"@,
                "decoder.quantizer.rvq_rest.vq.layers.0._codebook.embedding_sum"@,
            ),
        ),
        (
            "codebooks need embedding_sum / cluster_usage"@,
            lists(e, "decoder.quantizer.rvq_first.vq.layers.0._codebook.embedding_sum"@) && lists(
                e,
                "decoder.quantizer.rvq_first.vq.layers.0._codebook.cluster_usage"@,
            ),
        ),
        (
            "pre-transformer input width"@,
            exists|i: int| #[trigger] plainest(e, i) && runs_at(e[i].shape@),
        ),
        ("pre-transformer layer count"@, pre_layers(e, codec::TF_LAYERS as nat)),
        ("acoustic quantizer count"@, rest_tables(e) >= codec::ACOUSTIC_QUANTIZERS),
    ]
}

/// Holds the codec's header against the claims.
pub fn codec_claims(e: &Vec<Entry>) -> (v: Vec<Claim>)
    ensures
        audit::claimed(v@) == codec_statements(e@),
{
    let mut v: Vec<Claim> = Vec::new();
    assert(audit::claimed(v@) =~= Seq::empty());
    let alike = same_shape(
        e,
        "decoder.quantizer.rvq_first.vq.layers.0._codebook.embedding_sum",
        "decoder.quantizer.rvq_rest.vq.layers.0._codebook.embedding_sum",
    );
    add_claim(&mut v, "semantic and acoustic codebooks are the same size", alike);
    let usable = present(e, "decoder.quantizer.rvq_first.vq.layers.0._codebook.embedding_sum")
        && present(e, "decoder.quantizer.rvq_first.vq.layers.0._codebook.cluster_usage");
    add_claim(&mut v, "codebooks need embedding_sum / cluster_usage", usable);
    let runs = match pre_query_at(e) {
        Some(i) => {
            let shape = &e[i].shape;
            let ok = shape.len() > 1 && (shape[1] == codec::TF_DIM || shape[1] == codec::LATENT_DIM);
            assert(ok == (exists|k: int| #[trigger] plainest(e@, k) && runs_at(e@[k].shape@))) by {
                assert(plainest(e@, i as int));
                if exists|k: int| #[trigger] plainest(e@, k) && runs_at(e@[k].shape@) {
                    let k = choose|k: int| #[trigger] plainest(e@, k) && runs_at(e@[k].shape@);
                    assert(pre_query(e@[k].name@) && pre_query(e@[i as int].name@));
                    assert(k == i);
                }
            }
            ok
        },
        None => false,
    };
    add_claim(&mut v, "pre-transformer input width", runs);
    add_claim(&mut v, "pre-transformer layer count", has_pre_layers(e, codec::TF_LAYERS));
    add_claim(
        &mut v,
        "acoustic quantizer count",
        count_rest_tables(e) >= codec::ACOUSTIC_QUANTIZERS,
    );
    v
}

/// That a tensor is listed with these sizes.
pub open spec fn sized(e: Seq<Entry>, name: Seq<char>, sizes: Seq<usize>) -> bool {
    exists|i: int| #[trigger] stands_at(e, name, i) && e[i].shape@ == sizes
}

proof fn lemma_good(e: Seq<Entry>, name: Seq<char>, want: Seq<Option<usize>>)
    requires
        audit::shape_row(e, name, want) == audit::Row::Good,
    ensures
        exists|i: int| #[trigger] stands_at(e, name, i) && audit::fits(e[i].shape@, want),
{
    let i = audit::lemma_listed_stands(e, name);
    audit::lemma_first_place(e, name, i);
}

proof fn lemma_sized(e: Seq<Entry>, name: Seq<char>, want: Seq<Option<usize>>, sizes: Seq<usize>)
    requires
        exists|i: int| #[trigger] stands_at(e, name, i) && audit::fits(e[i].shape@, want),
        want.len() == sizes.len(),
        forall|d: int| 0 <= d < want.len() ==> #[trigger] want[d] == Some(sizes[d]),
    ensures
        sized(e, name, sizes),
{
    let i = choose|i: int| #[trigger] stands_at(e, name, i) && audit::fits(e[i].shape@, want);
    assert forall|d: int| 0 <= d < sizes.len() implies e[i].shape@[d] == sizes[d] by {
        assert(want[d] == Some(sizes[d]));
    }
    assert(e[i].shape@ =~= sizes);
}

/// A talker that passes has these sizes: 16 heads of 128 over 2048 channels, with eight for keys and
/// values and no biases; a feed-forward width of 6144; 3072 codec and 151936 text rows.
pub proof fn a_passed_talker_has_these_sizes(e: Seq<Entry>)
    requires
        audit::bad(audit::rows_for(e, talker_table())) == 0,
    ensures
        sized(e, "talker.model.layers.0.self_attn.q_proj.weight"@, seq![2048usize, 2048usize]),
        sized(e, "talker.model.layers.0.self_attn.k_proj.weight"@, seq![1024usize, 2048usize]),
        sized(e, "talker.model.layers.0.self_attn.v_proj.weight"@, seq![1024usize, 2048usize]),
        sized(e, "talker.model.layers.0.self_attn.o_proj.weight"@, seq![2048usize, 2048usize]),
        !lists(e, "talker.model.layers.0.self_attn.q_proj.bias"@),
        !lists(e, "talker.model.layers.0.self_attn.k_proj.bias"@),
        sized(e, "talker.model.layers.0.self_attn.q_norm.weight"@, seq![128usize]),
        sized(e, "talker.model.layers.0.self_attn.k_norm.weight"@, seq![128usize]),
        sized(e, "talker.model.layers.0.mlp.gate_proj.weight"@, seq![6144usize, 2048usize]),
        sized(e, "talker.model.layers.0.mlp.up_proj.weight"@, seq![6144usize, 2048usize]),
        sized(e, "talker.model.layers.0.mlp.down_proj.weight"@, seq![2048usize, 6144usize]),
        sized(e, "talker.model.layers.0.input_layernorm.weight"@, seq![2048usize]),
        sized(e, "talker.model.layers.0.post_attention_layernorm.weight"@, seq![2048usize]),
        sized(e, "talker.model.norm.weight"@, seq![2048usize]),
        sized(e, "talker.model.codec_embedding.weight"@, seq![3072usize, 2048usize]),
        sized(e, "talker.codec_head.weight"@, seq![3072usize, 2048usize]),
        sized(e, "talker.model.text_embedding.weight"@, seq![151936usize, 2048usize]),
        sized(e, "talker.text_projection.linear_fc1.weight"@, seq![2048usize, 2048usize]),
        sized(e, "talker.text_projection.linear_fc2.weight"@, seq![2048usize, 2048usize]),
{
    let w = talker_table();
    audit::an_audit_passes_where_every_row_is_good(audit::rows_for(e, w));
    assert(audit::rows_for(e, w)[0] == audit::Row::Good);
    lemma_good(e, "talker.model.layers.0.self_attn.q_proj.weight"@, w[0].shape->0);
    lemma_sized(e, "talker.model.layers.0.self_attn.q_proj.weight"@, w[0].shape->0, seq![2048usize, 2048usize]);
    assert(audit::rows_for(e, w)[1] == audit::Row::Good);
    lemma_good(e, "talker.model.layers.0.self_attn.k_proj.weight"@, w[1].shape->0);
    lemma_sized(e, "talker.model.layers.0.self_attn.k_proj.weight"@, w[1].shape->0, seq![1024usize, 2048usize]);
    assert(audit::rows_for(e, w)[2] == audit::Row::Good);
    lemma_good(e, "talker.model.layers.0.self_attn.v_proj.weight"@, w[2].shape->0);
    lemma_sized(e, "talker.model.layers.0.self_attn.v_proj.weight"@, w[2].shape->0, seq![1024usize, 2048usize]);
    assert(audit::rows_for(e, w)[3] == audit::Row::Good);
    lemma_good(e, "talker.model.layers.0.self_attn.o_proj.weight"@, w[3].shape->0);
    lemma_sized(e, "talker.model.layers.0.self_attn.o_proj.weight"@, w[3].shape->0, seq![2048usize, 2048usize]);
    assert(audit::rows_for(e, w)[4] == audit::Row::Good);
    assert(audit::rows_for(e, w)[5] == audit::Row::Good);
    assert(audit::rows_for(e, w)[6] == audit::Row::Good);
    lemma_good(e, "talker.model.layers.0.self_attn.q_norm.weight"@, w[6].shape->0);
    lemma_sized(e, "talker.model.layers.0.self_attn.q_norm.weight"@, w[6].shape->0, seq![128usize]);
    assert(audit::rows_for(e, w)[7] == audit::Row::Good);
    lemma_good(e, "talker.model.layers.0.self_attn.k_norm.weight"@, w[7].shape->0);
    lemma_sized(e, "talker.model.layers.0.self_attn.k_norm.weight"@, w[7].shape->0, seq![128usize]);
    assert(audit::rows_for(e, w)[8] == audit::Row::Good);
    lemma_good(e, "talker.model.layers.0.mlp.gate_proj.weight"@, w[8].shape->0);
    lemma_sized(e, "talker.model.layers.0.mlp.gate_proj.weight"@, w[8].shape->0, seq![6144usize, 2048usize]);
    assert(audit::rows_for(e, w)[9] == audit::Row::Good);
    lemma_good(e, "talker.model.layers.0.mlp.up_proj.weight"@, w[9].shape->0);
    lemma_sized(e, "talker.model.layers.0.mlp.up_proj.weight"@, w[9].shape->0, seq![6144usize, 2048usize]);
    assert(audit::rows_for(e, w)[10] == audit::Row::Good);
    lemma_good(e, "talker.model.layers.0.mlp.down_proj.weight"@, w[10].shape->0);
    lemma_sized(e, "talker.model.layers.0.mlp.down_proj.weight"@, w[10].shape->0, seq![2048usize, 6144usize]);
    assert(audit::rows_for(e, w)[11] == audit::Row::Good);
    lemma_good(e, "talker.model.layers.0.input_layernorm.weight"@, w[11].shape->0);
    lemma_sized(e, "talker.model.layers.0.input_layernorm.weight"@, w[11].shape->0, seq![2048usize]);
    assert(audit::rows_for(e, w)[12] == audit::Row::Good);
    lemma_good(e, "talker.model.layers.0.post_attention_layernorm.weight"@, w[12].shape->0);
    lemma_sized(e, "talker.model.layers.0.post_attention_layernorm.weight"@, w[12].shape->0, seq![2048usize]);
    assert(audit::rows_for(e, w)[13] == audit::Row::Good);
    lemma_good(e, "talker.model.norm.weight"@, w[13].shape->0);
    lemma_sized(e, "talker.model.norm.weight"@, w[13].shape->0, seq![2048usize]);
    assert(audit::rows_for(e, w)[14] == audit::Row::Good);
    lemma_good(e, "talker.model.codec_embedding.weight"@, w[14].shape->0);
    lemma_sized(e, "talker.model.codec_embedding.weight"@, w[14].shape->0, seq![3072usize, 2048usize]);
    assert(audit::rows_for(e, w)[15] == audit::Row::Good);
    lemma_good(e, "talker.codec_head.weight"@, w[15].shape->0);
    lemma_sized(e, "talker.codec_head.weight"@, w[15].shape->0, seq![3072usize, 2048usize]);
    assert(audit::rows_for(e, w)[16] == audit::Row::Good);
    lemma_good(e, "talker.model.text_embedding.weight"@, w[16].shape->0);
    lemma_sized(e, "talker.model.text_embedding.weight"@, w[16].shape->0, seq![151936usize, 2048usize]);
    assert(audit::rows_for(e, w)[17] == audit::Row::Good);
    lemma_good(e, "talker.text_projection.linear_fc1.weight"@, w[17].shape->0);
    lemma_sized(e, "talker.text_projection.linear_fc1.weight"@, w[17].shape->0, seq![2048usize, 2048usize]);
    assert(audit::rows_for(e, w)[18] == audit::Row::Good);
    lemma_good(e, "talker.text_projection.linear_fc2.weight"@, w[18].shape->0);
    lemma_sized(e, "talker.text_projection.linear_fc2.weight"@, w[18].shape->0, seq![2048usize, 2048usize]);
}

/// A predictor that passes has these sizes: 16 heads of 128 over 1024 channels, a feed-forward width of
/// 3072, 2048 codes, and a projection from the talker's 2048 channels.
pub proof fn a_passed_predictor_has_these_sizes(e: Seq<Entry>)
    requires
        audit::bad(audit::rows_for(e, predictor_table())) == 0,
    ensures
        sized(e, "talker.code_predictor.model.layers.0.self_attn.q_proj.weight"@, seq![2048usize, 1024usize]),
        sized(e, "talker.code_predictor.model.layers.0.self_attn.k_proj.weight"@, seq![1024usize, 1024usize]),
        sized(e, "talker.code_predictor.model.layers.0.self_attn.o_proj.weight"@, seq![1024usize, 2048usize]),
        sized(e, "talker.code_predictor.model.layers.0.self_attn.q_norm.weight"@, seq![128usize]),
        sized(e, "talker.code_predictor.model.layers.0.mlp.gate_proj.weight"@, seq![3072usize, 1024usize]),
        sized(e, "talker.code_predictor.model.layers.0.mlp.down_proj.weight"@, seq![1024usize, 3072usize]),
        sized(e, "talker.code_predictor.model.norm.weight"@, seq![1024usize]),
        sized(e, "talker.code_predictor.small_to_mtp_projection.weight"@, seq![1024usize, 2048usize]),
        sized(e, "talker.code_predictor.small_to_mtp_projection.bias"@, seq![1024usize]),
        sized(e, "talker.code_predictor.lm_head.0.weight"@, seq![2048usize, 1024usize]),
        sized(e, "talker.code_predictor.model.codec_embedding.0.weight"@, seq![2048usize, 2048usize]),
        exists|i: int|
            #[trigger] stands_at(e, "speaker_encoder.fc.weight"@, i) && e[i].shape@.len() == 3 && e[i].shape@[0] == 2048 && e[i].shape@[2] == 1,
{
    let w = predictor_table();
    audit::an_audit_passes_where_every_row_is_good(audit::rows_for(e, w));
    assert(audit::rows_for(e, w)[0] == audit::Row::Good);
    lemma_good(e, "talker.code_predictor.model.layers.0.self_attn.q_proj.weight"@, w[0].shape->0);
    lemma_sized(e, "talker.code_predictor.model.layers.0.self_attn.q_proj.weight"@, w[0].shape->0, seq![2048usize, 1024usize]);
    assert(audit::rows_for(e, w)[1] == audit::Row::Good);
    lemma_good(e, "talker.code_predictor.model.layers.0.self_attn.k_proj.weight"@, w[1].shape->0);
    lemma_sized(e, "talker.code_predictor.model.layers.0.self_attn.k_proj.weight"@, w[1].shape->0, seq![1024usize, 1024usize]);
    assert(audit::rows_for(e, w)[2] == audit::Row::Good);
    lemma_good(e, "talker.code_predictor.model.layers.0.self_attn.o_proj.weight"@, w[2].shape->0);
    lemma_sized(e, "talker.code_predictor.model.layers.0.self_attn.o_proj.weight"@, w[2].shape->0, seq![1024usize, 2048usize]);
    assert(audit::rows_for(e, w)[3] == audit::Row::Good);
    lemma_good(e, "talker.code_predictor.model.layers.0.self_attn.q_norm.weight"@, w[3].shape->0);
    lemma_sized(e, "talker.code_predictor.model.layers.0.self_attn.q_norm.weight"@, w[3].shape->0, seq![128usize]);
    assert(audit::rows_for(e, w)[4] == audit::Row::Good);
    lemma_good(e, "talker.code_predictor.model.layers.0.mlp.gate_proj.weight"@, w[4].shape->0);
    lemma_sized(e, "talker.code_predictor.model.layers.0.mlp.gate_proj.weight"@, w[4].shape->0, seq![3072usize, 1024usize]);
    assert(audit::rows_for(e, w)[5] == audit::Row::Good);
    lemma_good(e, "talker.code_predictor.model.layers.0.mlp.down_proj.weight"@, w[5].shape->0);
    lemma_sized(e, "talker.code_predictor.model.layers.0.mlp.down_proj.weight"@, w[5].shape->0, seq![1024usize, 3072usize]);
    assert(audit::rows_for(e, w)[6] == audit::Row::Good);
    lemma_good(e, "talker.code_predictor.model.norm.weight"@, w[6].shape->0);
    lemma_sized(e, "talker.code_predictor.model.norm.weight"@, w[6].shape->0, seq![1024usize]);
    assert(audit::rows_for(e, w)[7] == audit::Row::Good);
    lemma_good(e, "talker.code_predictor.small_to_mtp_projection.weight"@, w[7].shape->0);
    lemma_sized(e, "talker.code_predictor.small_to_mtp_projection.weight"@, w[7].shape->0, seq![1024usize, 2048usize]);
    assert(audit::rows_for(e, w)[8] == audit::Row::Good);
    lemma_good(e, "talker.code_predictor.small_to_mtp_projection.bias"@, w[8].shape->0);
    lemma_sized(e, "talker.code_predictor.small_to_mtp_projection.bias"@, w[8].shape->0, seq![1024usize]);
    assert(audit::rows_for(e, w)[9] == audit::Row::Good);
    lemma_good(e, "talker.code_predictor.lm_head.0.weight"@, w[9].shape->0);
    lemma_sized(e, "talker.code_predictor.lm_head.0.weight"@, w[9].shape->0, seq![2048usize, 1024usize]);
    assert(audit::rows_for(e, w)[10] == audit::Row::Good);
    lemma_good(e, "talker.code_predictor.model.codec_embedding.0.weight"@, w[10].shape->0);
    lemma_sized(e, "talker.code_predictor.model.codec_embedding.0.weight"@, w[10].shape->0, seq![2048usize, 2048usize]);
    assert(audit::rows_for(e, w)[11] == audit::Row::Good);
    lemma_good(e, "speaker_encoder.fc.weight"@, w[11].shape->0);
    let i = choose|i: int|
        #[trigger] stands_at(e, "speaker_encoder.fc.weight"@, i) && audit::fits(e[i].shape@, w[11].shape->0);
    let want = w[11].shape->0;
    assert(want[0] is Some && want[2] is Some);
}

/// A codec that passes has these sizes: 2048 codes of 256 channels, projections to 512 and back, and a
/// transformer of 512 channels between latents of 1024.
pub proof fn a_passed_codec_has_these_sizes(e: Seq<Entry>)
    requires
        audit::bad(audit::rows_for(e, codec_table())) == 0,
    ensures
        sized(e, "decoder.quantizer.rvq_first.vq.layers.0._codebook.embedding_sum"@, seq![2048usize, 256usize]),
        sized(e, "decoder.quantizer.rvq_rest.vq.layers.0._codebook.embedding_sum"@, seq![2048usize, 256usize]),
        sized(e, "decoder.quantizer.rvq_first.vq.layers.0._codebook.cluster_usage"@, seq![2048usize]),
        sized(e, "decoder.quantizer.rvq_first.input_proj.weight"@, seq![256usize, 512usize, 1usize]),
        sized(e, "decoder.quantizer.rvq_first.output_proj.weight"@, seq![512usize, 256usize, 1usize]),
        !lists(e, "decoder.quantizer.rvq_first.vq.layers.0.project_out.weight"@),
        sized(e, "decoder.pre_transformer.input_proj.weight"@, seq![512usize, 1024usize]),
        sized(e, "decoder.pre_transformer.output_proj.weight"@, seq![1024usize, 512usize]),
{
    let w = codec_table();
    audit::an_audit_passes_where_every_row_is_good(audit::rows_for(e, w));
    assert(audit::rows_for(e, w)[0] == audit::Row::Good);
    lemma_good(e, "decoder.quantizer.rvq_first.vq.layers.0._codebook.embedding_sum"@, w[0].shape->0);
    lemma_sized(e, "decoder.quantizer.rvq_first.vq.layers.0._codebook.embedding_sum"@, w[0].shape->0, seq![2048usize, 256usize]);
    assert(audit::rows_for(e, w)[1] == audit::Row::Good);
    lemma_good(e, "decoder.quantizer.rvq_rest.vq.layers.0._codebook.embedding_sum"@, w[1].shape->0);
    lemma_sized(e, "decoder.quantizer.rvq_rest.vq.layers.0._codebook.embedding_sum"@, w[1].shape->0, seq![2048usize, 256usize]);
    assert(audit::rows_for(e, w)[2] == audit::Row::Good);
    lemma_good(e, "decoder.quantizer.rvq_first.vq.layers.0._codebook.cluster_usage"@, w[2].shape->0);
    lemma_sized(e, "decoder.quantizer.rvq_first.vq.layers.0._codebook.cluster_usage"@, w[2].shape->0, seq![2048usize]);
    assert(audit::rows_for(e, w)[3] == audit::Row::Good);
    lemma_good(e, "decoder.quantizer.rvq_first.input_proj.weight"@, w[3].shape->0);
    lemma_sized(e, "decoder.quantizer.rvq_first.input_proj.weight"@, w[3].shape->0, seq![256usize, 512usize, 1usize]);
    assert(audit::rows_for(e, w)[4] == audit::Row::Good);
    lemma_good(e, "decoder.quantizer.rvq_first.output_proj.weight"@, w[4].shape->0);
    lemma_sized(e, "decoder.quantizer.rvq_first.output_proj.weight"@, w[4].shape->0, seq![512usize, 256usize, 1usize]);
    assert(audit::rows_for(e, w)[5] == audit::Row::Good);
    assert(audit::rows_for(e, w)[6] == audit::Row::Good);
    lemma_good(e, "decoder.pre_transformer.input_proj.weight"@, w[6].shape->0);
    lemma_sized(e, "decoder.pre_transformer.input_proj.weight"@, w[6].shape->0, seq![512usize, 1024usize]);
    assert(audit::rows_for(e, w)[7] == audit::Row::Good);
    lemma_good(e, "decoder.pre_transformer.output_proj.weight"@, w[7].shape->0);
    lemma_sized(e, "decoder.pre_transformer.output_proj.weight"@, w[7].shape->0, seq![1024usize, 512usize]);
}

/// The tables of the acoustic codebooks are counted one by one, by what their names mention.
pub proof fn tables_are_counted_by_name(e: Seq<Entry>, x: Entry)
    ensures
        rest_tables(Seq::empty()) == 0,
        rest_tables(e.push(x)) == rest_tables(e) + (if mentions(x.name@, "rvq_rest"@) && mentions(
            x.name@,
            "embed"@,
        ) {
            1nat
        } else {
            0
        }),
{
    assert(e.push(x).drop_last() =~= e);
}

/// A transformer runs at 512 or at 1024 channels, by the second size of its query projection.
pub proof fn widths_are_these(shape: Seq<usize>)
    ensures
        runs_at(shape) <==> shape.len() >= 2 && (shape[1] == 512 || shape[1] == 1024),
{
}

/// Two tensors are alike where neither is there, or both are and have the same sizes.
pub proof fn alike_is_the_same_sizes(e: Seq<Entry>, a: Seq<char>, b: Seq<char>, i: int, j: int)
    requires
        audit::stands_at(e, a, i),
        audit::stands_at(e, b, j),
    ensures
        alike(e, a, b) <==> e[i].shape@ == e[j].shape@,
{
    audit::lemma_first_place(e, a, i);
    audit::lemma_first_place(e, b, j);
}

/// A talker whose claims hold has 28 layers and a biased text projection; its predictor has five
/// layers, and a head and a table for each of the fifteen codebooks behind the first.
pub proof fn a_talker_is_what_it_claims(e: Seq<Entry>)
    requires
        audit::broken(talker_statements(e)) == 0,
    ensures
        counts_to(e, "talker.model."@ + "layers."@, "."@ + "self_attn.q_proj.weight"@, 28),
        lists(e, "talker.text_projection.linear_fc1.bias"@),
        lists(e, "talker.text_projection.linear_fc2.bias"@),
        counts_to(
            e,
            "talker.code_predictor.model."@ + "layers."@,
            "."@ + "self_attn.q_proj.weight"@,
            5,
        ),
        counts_to(e, "talker.code_predictor.lm_head."@, ".weight"@, 15),
        counts_to(e, "talker.code_predictor.model.codec_embedding."@, ".weight"@, 15),
{
    let s = talker_statements(e);
    audit::unbroken_claims_hold(s);
    assert(s[0].1 && s[1].1 && s[2].1 && s[3].1 && s[4].1);
}

/// A codec whose claims hold has codebooks of one size with their usage, a transformer of eight
/// layers at a width it can run at, and at least fifteen acoustic codebooks.
pub proof fn a_codec_is_what_it_claims(e: Seq<Entry>)
    requires
        audit::broken(codec_statements(e)) == 0,
    ensures
        alike(
            e,
            "decoder.quantizer.rvq_first.vq.layers.0._codebook.embedding_sum"@,
            "decoder.quantizer.rvq_rest.vq.layers.0._codebook.embedding_sum"@,
        ),
        lists(e, "decoder.quantizer.rvq_first.vq.layers.0._codebook.embedding_sum"@),
        lists(e, "decoder.quantizer.rvq_first.vq.layers.0._codebook.cluster_usage"@),
        exists|i: int| #[trigger] plainest(e, i) && runs_at(e[i].shape@),
        pre_layers(e, 8),
        rest_tables(e) >= 15,
{
    let s = codec_statements(e);
    audit::unbroken_claims_hold(s);
    assert(s[0].1 && s[1].1 && s[2].1 && s[3].1 && s[4].1);
}

/// A transformer layer is there where some tensor's name mentions the transformer and the layer's
/// number; the query projection that tells the width is the one with the shortest name.
pub proof fn the_transformer_is_told_by_name(e: Seq<Entry>, k: int, i: nat, j: int)
    requires
        0 <= k < e.len(),
    ensures
        mentions(e[k].name@, "pre_transformer"@) && mentions(
            e[k].name@,
            "layers."@ + number::written(i) + "."@,
        ) ==> pre_layer(e, i),
        plainest(e, j) ==> mentions(e[j].name@, "pre_transformer"@)
            && "q_proj.weight"@.is_suffix_of(e[j].name@),
        plainest(e, j) && mentions(e[k].name@, "pre_transformer"@) && "q_proj.weight"@.is_suffix_of(
            e[k].name@,
        ) ==> byte_len(e[j].name@) <= byte_len(e[k].name@),
{
}

} // verus!
