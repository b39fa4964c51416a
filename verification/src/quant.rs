//! Weight formats.

use crate::text::same;
use vstd::prelude::*;

verus! {

/// A block-quantized weight format.
#[derive(Clone, Copy, PartialEq, Eq, Structural, Debug)]
pub enum Format {
    Q8_0,
    Q5_0,
    Q4_1,
    Q4_0,
}

/// How a projection's weights are held.
#[derive(Clone, Copy, PartialEq, Eq, Structural, Debug)]
pub enum Weight {
    F32,
    F16,
    Quant(Format),
}

impl Weight {
    /// Only dense weights share one read among the lanes of a batch.
    pub fn batches(&self) -> (r: bool)
        ensures
            r == !(self is Quant),
    {
        match self {
            Weight::Quant(_) => false,
            _ => true,
        }
    }
}

/// Why a format name is refused.
#[derive(Debug)]
pub enum QuantError {
    /// The format's 256-element blocks do not divide the projections.
    LargeBlocks { name: String },
    /// No such format.
    Unknown { name: String },
}

/// The block format of a name.
pub open spec fn format_named(name: Seq<char>) -> Option<Format> {
    if name == "q8_0"@ {
        Some(Format::Q8_0)
    } else if name == "q5_0"@ {
        Some(Format::Q5_0)
    } else if name == "q4_1"@ {
        Some(Format::Q4_1)
    } else if name == "q4_0"@ {
        Some(Format::Q4_0)
    } else {
        None
    }
}

/// A format whose blocks are too large for the projections.
pub open spec fn large_blocks(name: Seq<char>) -> bool {
    name == "q4_K"@ || name == "q5_K"@ || name == "q6_K"@
}

/// The formats that an unquantized or block-quantized engine lists.
pub open spec fn block_formats() -> Seq<Seq<char>> {
    seq!["f32"@, "q8_0"@, "q5_0"@, "q4_1"@, "q4_0"@]
}

/// What several names say.
pub open spec fn listed(v: Seq<&'static str>) -> Seq<Seq<char>> {
    Seq::new(v.len(), |i: int| v[i]@)
}

fn format_of(name: &str) -> (r: Option<Format>)
    ensures
        r == format_named(name@),
{
    if same(name, "q8_0") {
        Some(Format::Q8_0)
    } else if same(name, "q5_0") {
        Some(Format::Q5_0)
    } else if same(name, "q4_1") {
        Some(Format::Q4_1)
    } else if same(name, "q4_0") {
        Some(Format::Q4_0)
    } else {
        None
    }
}

/// The name that a request without one stands for.
pub open spec fn name_or_default(name: Option<Seq<char>>) -> Seq<char> {
    match name {
        Some(n) => n,
        None => "q8_0"@,
    }
}

/// The text of an optional name.
pub open spec fn name_view(name: Option<&str>) -> Option<Seq<char>> {
    match name {
        Some(n) => Some(n@),
        None => None,
    }
}

/// What the block-quantized engines load for a name: `none` and `f32` leave the weights as they
/// are, and without a name it is `q8_0`.
pub fn parse_block_quant(name: Option<&str>) -> (r: Result<Option<Format>, QuantError>)
    ensures
        ({
            let n = name_or_default(name_view(name));
            match r {
                Ok(None) => n == "none"@ || n == "f32"@,
                Ok(Some(f)) => n != "none"@ && n != "f32"@ && format_named(n) == Some(f),
                Err(QuantError::LargeBlocks { name: m }) => m@ == n && large_blocks(n)
                    && format_named(n) is None && n != "none"@ && n != "f32"@,
                Err(QuantError::Unknown { name: m }) => m@ == n && !large_blocks(n)
                    && format_named(n) is None && n != "none"@ && n != "f32"@,
            }
        }),
{
    let n = match name {
        Some(n) => n,
        None => "q8_0",
    };
    if same(n, "none") || same(n, "f32") {
        return Ok(None);
    }
    if let Some(f) = format_of(n) {
        return Ok(Some(f));
    }
    if same(n, "q4_K") || same(n, "q5_K") || same(n, "q6_K") {
        return Err(QuantError::LargeBlocks { name: n.to_owned() });
    }
    Err(QuantError::Unknown { name: n.to_owned() })
}

/// What the engine with dense formats loads for a name; without one it is `q8_0`.
pub fn parse_weight(name: Option<&str>) -> (r: Result<Weight, QuantError>)
    ensures
        ({
            let n = name_or_default(name_view(name));
            match r {
                Ok(Weight::F32) => n == "f32"@,
                Ok(Weight::F16) => n != "f32"@ && n == "f16"@,
                Ok(Weight::Quant(f)) => n != "f32"@ && n != "f16"@ && format_named(n) == Some(f),
                Err(QuantError::Unknown { name: m }) => m@ == n && n != "f32"@ && n != "f16"@
                    && format_named(n) is None,
                Err(QuantError::LargeBlocks { .. }) => false,
            }
        }),
{
    let n = match name {
        Some(n) => n,
        None => "q8_0",
    };
    if same(n, "f32") {
        return Ok(Weight::F32);
    }
    if same(n, "f16") {
        return Ok(Weight::F16);
    }
    match format_of(n) {
        Some(f) => Ok(Weight::Quant(f)),
        None => Err(QuantError::Unknown { name: n.to_owned() }),
    }
}

/// What the block-quantized engines load for a name, if they load it.
pub open spec fn block_choice(n: Seq<char>) -> Option<Option<Format>> {
    if n == "none"@ || n == "f32"@ {
        Some(None)
    } else {
        match format_named(n) {
            Some(f) => Some(Some(f)),
            None => None,
        }
    }
}

/// What the engine with dense formats loads for a name, if it loads it.
pub open spec fn weight_choice(n: Seq<char>) -> Option<Weight> {
    if n == "f32"@ {
        Some(Weight::F32)
    } else if n == "f16"@ {
        Some(Weight::F16)
    } else {
        match format_named(n) {
            Some(f) => Some(Weight::Quant(f)),
            None => None,
        }
    }
}

/// The formats that the block-quantized engines list, the dense one first.
pub fn block_format_list() -> (v: Vec<&'static str>)
    ensures
        listed(v@) == block_formats(),
{
    let mut v: Vec<&'static str> = Vec::new();
    v.push("f32");
    v.push("q8_0");
    v.push("q5_0");
    v.push("q4_1");
    v.push("q4_0");
    assert(listed(v@) =~= block_formats());
    v
}

/// Without a name the weights are `q8_0`, on every engine; and only the dense formats batch.
pub proof fn the_default_is_q8_0()
    ensures
        format_named(name_or_default(None)) == Some(Format::Q8_0),
        name_or_default(None) != "f32"@,
        name_or_default(None) != "f16"@,
        name_or_default(None) != "none"@,
{
    reveal_strlit("q8_0");
    reveal_strlit("f32");
    reveal_strlit("f16");
    reveal_strlit("none");
    assert("q8_0"@[0] != "none"@[0]);
    assert("q8_0"@.len() != "f32"@.len());
    assert("q8_0"@.len() != "f16"@.len());
}

/// Every format that the block-quantized engines list is one that they load.
pub proof fn listed_formats_load(i: int)
    requires
        0 <= i < block_formats().len(),
    ensures
        block_formats()[i] == "f32"@ || format_named(block_formats()[i]) is Some,
{
}

/// Each format goes by one name.
pub proof fn formats_go_by_their_names(name: Seq<char>)
    ensures
        format_named(name) == Some(Format::Q8_0) <==> name == seq!['q', '8', '_', '0'],
        format_named(name) == Some(Format::Q5_0) <==> name == seq!['q', '5', '_', '0'],
        format_named(name) == Some(Format::Q4_1) <==> name == seq!['q', '4', '_', '1'],
        format_named(name) == Some(Format::Q4_0) <==> name == seq!['q', '4', '_', '0'],
        block_choice(name) == Some(None::<Format>) <==> name == seq!['f', '3', '2'] || name == seq![
            'n',
            'o',
            'n',
            'e',
        ],
        weight_choice(name) == Some(Weight::F32) <==> name == seq!['f', '3', '2'],
        weight_choice(name) == Some(Weight::F16) <==> name == seq!['f', '1', '6'],
        forall|f: Format|
            block_choice(name) == Some(Some(f)) <==> #[trigger] format_named(name) == Some(f),
        forall|f: Format|
            weight_choice(name) == Some(Weight::Quant(f)) <==> #[trigger] format_named(name)
                == Some(f),
        name_or_default(None) == seq!['q', '8', '_', '0'],
        name_or_default(Some(name)) == name,
        large_blocks(name) <==> name.len() == 4 && name[0] == 'q' && '4' <= name[1] <= '6'
            && name[2] == '_' && name[3] == 'K',
{
    reveal_strlit("q8_0");
    reveal_strlit("q5_0");
    reveal_strlit("q4_1");
    reveal_strlit("q4_0");
    reveal_strlit("q4_K");
    reveal_strlit("q5_K");
    reveal_strlit("q6_K");
    reveal_strlit("f32");
    reveal_strlit("f16");
    reveal_strlit("none");
    assert("q8_0"@ =~= seq!['q', '8', '_', '0']);
    assert("q5_0"@ =~= seq!['q', '5', '_', '0']);
    assert("q4_1"@ =~= seq!['q', '4', '_', '1']);
    assert("q4_0"@ =~= seq!['q', '4', '_', '0']);
    assert("f32"@ =~= seq!['f', '3', '2']);
    assert("f16"@ =~= seq!['f', '1', '6']);
    assert("none"@ =~= seq!['n', 'o', 'n', 'e']);
    let large = |d: char| seq!['q', d, '_', 'K'];
    assert("q4_K"@ =~= large('4'));
    assert("q5_K"@ =~= large('5'));
    assert("q6_K"@ =~= large('6'));
    if name.len() == 4 && name[0] == 'q' && '4' <= name[1] <= '6' && name[2] == '_' && name[3]
        == 'K' {
        assert(name =~= large(name[1]));
        assert(name[1] == '4' || name[1] == '5' || name[1] == '6');
    }
    assert("q8_0"@[1] == '8' && "q5_0"@[1] == '5' && "q4_1"@[3] == '1' && "q4_0"@[3] == '0');
}

/// Lists show their names, each in its place.
pub proof fn lists_show_their_names(v: Seq<&'static str>, name: &str, i: int)
    requires
        0 <= i < v.len(),
    ensures
        listed(v).len() == v.len(),
        listed(v)[i] == v[i]@,
        name_view(Some(name)) == Some(name@),
        name_view(None) is None,
{
}

} // verus!
