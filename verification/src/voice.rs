//! Voice assets: conditioning precomputed offline, consumed cheaply at runtime.
//!
//! A voice carries the engine it was built for. Assets are not interchangeable: the tensors mean
//! entirely different things to each engine.

use crate::chars;
use crate::grid;
use crate::grid::split_rows;
use crate::text::same;
use candle_core::{DType, Device, Tensor};
use vstd::prelude::*;

verus! {

/// A tensor of `candle_core`, opaque here but for its shape and its elements.
#[verifier::external_type_specification]
#[verifier::external_body]
pub struct ExTensor(candle_core::Tensor);

/// A device of `candle_core`.
#[verifier::external_type_specification]
#[verifier::external_body]
pub struct ExDevice(candle_core::Device);

/// An error of `candle_core`.
#[verifier::external_type_specification]
#[verifier::external_body]
pub struct ExError(candle_core::Error);

/// The dimensions of a tensor, outermost first.
pub uninterp spec fn shape(t: Tensor) -> Seq<usize>;

/// The elements of a tensor as unsigned 32-bit integers, in row-major order, each cast on the
/// host. A tensor is a value here: nothing in this library writes into one.
pub uninterp spec fn integers(t: Tensor) -> Seq<u32>;

/// The elements of a tensor as they are, in row-major order: the bits of each, whatever its type.
pub uninterp spec fn content(t: Tensor) -> Seq<u64>;

/// The type of the tensor's elements is one that the host casts to unsigned 32-bit integers: any
/// but the four- and six-bit floats and the eight-bit scale type.
pub uninterp spec fn castable(t: Tensor) -> bool;

/// The tensor's elements are unsigned 32-bit integers.
pub uninterp spec fn unsigned(t: Tensor) -> bool;

/// The device is the host.
pub uninterp spec fn is_host(d: Device) -> bool;

/// The tensor's elements are on the host.
pub uninterp spec fn on_host(t: Tensor) -> bool;

/// The number of elements that a shape spans.
pub open spec fn elements(dims: Seq<usize>) -> nat
    decreases dims.len(),
{
    if dims.len() == 0 {
        1
    } else {
        elements(dims.drop_last()) * dims.last() as nat
    }
}

/// `Device::Cpu`, the host.
#[verifier::external_body]
fn host() -> (d: Device)
    ensures
        is_host(d),
{
    Device::Cpu
}

/// `Tensor::to_device` copies a tensor to a device, or shares it when it is there already. The
/// copy keeps the shape, the elements and their type. From the host to the host it never fails;
/// otherwise success is the device's affair.
#[verifier::external_body]
fn to_device(t: &Tensor, device: &Device) -> (r: Result<Tensor, candle_core::Error>)
    ensures
        r matches Ok(u) ==> shape(u) == shape(*t) && integers(u) == integers(*t) && content(u)
            == content(*t) && castable(u) == castable(*t) && (is_host(*device) ==> on_host(u)),
        on_host(*t) && is_host(*device) ==> r is Ok,
{
    t.to_device(device)
}

/// `Tensor::to_dtype` with unsigned 32-bit integers as the target, of a tensor on the host. The
/// cast stays on the host and keeps the shape, and its elements are what [`integers`] names. It
/// succeeds on the types that [`castable`] names and on no other.
#[verifier::external_body]
fn to_u32(t: &Tensor) -> (r: Result<Tensor, candle_core::Error>)
    requires
        on_host(*t),
    ensures
        r is Ok <==> castable(*t),
        r matches Ok(u) ==> shape(u) == shape(*t) && integers(u) == integers(*t) && on_host(u)
            && unsigned(u),
{
    t.to_dtype(DType::U32)
}

/// `Tensor::dims2` gives the two dimensions of a tensor that has two, and an error otherwise.
#[verifier::external_body]
fn dims2(t: &Tensor) -> (r: Result<(usize, usize), candle_core::Error>)
    ensures
        match r {
            Ok((a, b)) => shape(*t) == seq![a, b],
            Err(_) => shape(*t).len() != 2,
        },
{
    t.dims2()
}

/// `Tensor::dim` with dimension 1: the size of a tensor's second dimension, and an error where it
/// has none.
#[verifier::external_body]
pub(crate) fn second_dim(t: &Tensor) -> (r: Result<usize, candle_core::Error>)
    ensures
        match r {
            Ok(n) => shape(*t).len() >= 2 && n == shape(*t)[1],
            Err(_) => shape(*t).len() < 2,
        },
{
    t.dim(1)
}

/// `Tensor::flatten_all` lays the elements of a two-dimensional tensor out in one dimension, in
/// row-major order. The number of elements has to fit the machine. Of unsigned 32-bit integers on
/// the host it never fails, and they stay both.
#[verifier::external_body]
fn flatten_all(t: &Tensor) -> (r: Result<Tensor, candle_core::Error>)
    requires
        shape(*t).len() == 2,
        elements(shape(*t)) <= usize::MAX,
    ensures
        r matches Ok(u) ==> shape(u).len() == 1 && shape(u)[0] == elements(shape(*t)) && integers(u)
            == integers(*t) && on_host(u) == on_host(*t) && unsigned(u) == unsigned(*t),
        on_host(*t) && unsigned(*t) ==> r is Ok,
{
    t.flatten_all()
}

/// `Tensor::to_vec1` copies the elements of a one-dimensional tensor of unsigned 32-bit integers
/// to the host; of another tensor it is an error. From the host it never fails.
#[verifier::external_body]
fn to_vec1(t: &Tensor) -> (r: Result<Vec<u32>, candle_core::Error>)
    ensures
        r matches Ok(v) ==> unsigned(*t) && shape(*t).len() == 1 && v@.len() == shape(*t)[0] && v@
            == integers(*t),
        on_host(*t) && unsigned(*t) && shape(*t).len() == 1 ==> r is Ok,
{
    t.to_vec1::<u32>()
}

/// Why a tensor of a voice cannot be had.
#[derive(Debug)]
pub enum VoiceError {
    /// The voice has no tensor of that name; it has these.
    NoTensor { name: String, have: Vec<String> },
    /// The tensor does not have two dimensions.
    NotTwoDim { name: String },
    /// The tensor claims more elements than can be addressed.
    TooLarge { name: String },
    /// The tensor library refused.
    Tensor(candle_core::Error),
}

/// Why a tensor cannot be read as a grid.
#[derive(Debug)]
pub enum GridError {
    /// It does not have two dimensions.
    NotTwoDim,
    /// It claims more elements than can be addressed.
    TooLarge,
    /// The tensor library refused.
    Tensor(candle_core::Error),
}

/// `rows` are the elements of a two-dimensional tensor, row by row.
pub open spec fn reads_rows(t: Tensor, rows: Seq<Seq<u32>>) -> bool {
    &&& shape(t).len() == 2
    &&& rows.len() == shape(t)[0]
    &&& grid::rectangular(rows, shape(t)[1] as nat)
    &&& grid::flat_rows(rows) == integers(t)
}

/// A tensor reads as rows in one way only.
pub proof fn a_tensor_has_one_reading(t: Tensor, a: Seq<Seq<u32>>, b: Seq<Seq<u32>>)
    requires
        reads_rows(t, a),
        reads_rows(t, b),
    ensures
        a == b,
{
    assert forall|i: int| 0 <= i < a.len() implies (#[trigger] a[i]).len() == b[i].len() by {
        assert(b[i].len() == shape(t)[1]);
    }
    grid::rows_are_determined(a, b);
}

/// A tensor that reads as rows once it is on the host.
pub open spec fn gives_rows(t: Tensor) -> bool {
    castable(t) && shape(t).len() == 2 && elements(shape(t)) <= usize::MAX
}

/// Why the tensor does not read as rows. The tensor library refuses only a tensor that is not on
/// the host, or whose elements cannot be cast.
pub open spec fn grid_error(t: Tensor, e: GridError) -> bool {
    match e {
        GridError::NotTwoDim => castable(t) && shape(t).len() != 2,
        GridError::TooLarge => castable(t) && shape(t).len() == 2 && elements(shape(t)) > usize::MAX,
        GridError::Tensor(_) => !(on_host(t) && castable(t)),
    }
}

/// A `[rows, len]` integer tensor as rows, cast on the host.
pub fn rows_of(t: &Tensor) -> (r: Result<Vec<Vec<u32>>, GridError>)
    ensures
        match r {
            Ok(rows) => gives_rows(*t) && reads_rows(*t, grid::rows_view(rows@)),
            Err(e) => grid_error(*t, e),
        },
{
    let near = match to_device(t, &host()) {
        Ok(u) => u,
        Err(e) => {
            return Err(GridError::Tensor(e));
        },
    };
    let whole = match to_u32(&near) {
        Ok(u) => u,
        Err(e) => {
            return Err(GridError::Tensor(e));
        },
    };
    let (rows, len) = match dims2(&whole) {
        Ok(d) => d,
        Err(_) => {
            return Err(GridError::NotTwoDim);
        },
    };
    proof {
        let d = shape(whole);
        reveal_with_fuel(elements, 3);
        assert(d.drop_last() =~= seq![rows]);
        assert(d.drop_last().drop_last() =~= Seq::<usize>::empty());
        assert(1 * rows == rows) by (nonlinear_arith);
    }
    if rows.checked_mul(len).is_none() {
        return Err(GridError::TooLarge);
    }
    let line = match flatten_all(&whole) {
        Ok(u) => u,
        Err(e) => {
            return Err(GridError::Tensor(e));
        },
    };
    match to_vec1(&line) {
        Ok(flat) => Ok(split_rows(&flat, rows, len)),
        Err(e) => Err(GridError::Tensor(e)),
    }
}

/// What reading the tensor `name` came to, with the name in the errors.
pub fn named(name: &str, read: Result<Vec<Vec<u32>>, GridError>) -> (r: Result<
    Vec<Vec<u32>>,
    VoiceError,
>)
    ensures
        match (read, r) {
            (Ok(rows), Ok(out)) => out == rows,
            (Err(GridError::NotTwoDim), Err(VoiceError::NotTwoDim { name: n })) => n@ == name@,
            (Err(GridError::TooLarge), Err(VoiceError::TooLarge { name: n })) => n@ == name@,
            (Err(GridError::Tensor(e)), Err(VoiceError::Tensor(f))) => e == f,
            _ => false,
        },
{
    match read {
        Ok(rows) => Ok(rows),
        Err(GridError::NotTwoDim) => Err(VoiceError::NotTwoDim { name: name.to_owned() }),
        Err(GridError::TooLarge) => Err(VoiceError::TooLarge { name: name.to_owned() }),
        Err(GridError::Tensor(e)) => Err(VoiceError::Tensor(e)),
    }
}

pub struct Voice {
    /// The engine this asset was built for.
    pub engine: String,
    pub name: String,
    /// Transcript of the reference clip.
    pub text: String,
    /// The tensors, by name.
    pub tensors: Vec<(String, Tensor)>,
}

/// The names of some tensors.
pub open spec fn names(tensors: Seq<(String, Tensor)>) -> Seq<Seq<char>> {
    Seq::new(tensors.len(), |i: int| tensors[i].0@)
}

/// The `i`-th tensor is the first of that name.
pub open spec fn first_named(tensors: Seq<(String, Tensor)>, name: Seq<char>, i: int) -> bool {
    &&& 0 <= i < tensors.len()
    &&& tensors[i].0@ == name
    &&& forall|j: int| 0 <= j < i ==> (#[trigger] names(tensors)[j]) != name
}

/// The first tensor of that name, if there is one.
pub open spec fn found(tensors: Seq<(String, Tensor)>, name: Seq<char>) -> Option<Tensor>
    decreases tensors.len(),
{
    if tensors.len() == 0 {
        None
    } else {
        match found(tensors.drop_last(), name) {
            Some(t) => Some(t),
            None => if tensors.last().0@ == name {
                Some(tensors.last().1)
            } else {
                None
            },
        }
    }
}

/// Two voices are for the same engine, say the same and find the same tensors.
pub open spec fn same_voice(v: Voice, w: Voice) -> bool {
    &&& v.engine@ == w.engine@
    &&& v.text@ == w.text@
    &&& forall|name: Seq<char>| #[trigger] found(v.tensors@, name) == found(w.tensors@, name)
}

/// A name is found where the list has it, and what is found is the first tensor of that name.
pub proof fn a_name_finds_its_first_tensor(tensors: Seq<(String, Tensor)>, name: Seq<char>)
    ensures
        found(tensors, name) is Some <==> names(tensors).contains(name),
        found(tensors, name) matches Some(t) ==> exists|i: int|
            #[trigger] first_named(tensors, name, i) && t == tensors[i].1,
    decreases tensors.len(),
{
    if tensors.len() > 0 {
        let before = tensors.drop_last();
        a_name_finds_its_first_tensor(before, name);
        assert(names(before) =~= names(tensors).drop_last());
        if found(before, name) is Some {
            let i = choose|i: int|
                #[trigger] first_named(before, name, i) && found(before, name)->0 == before[i].1;
            assert(names(tensors)[i] == name);
            assert forall|j: int| 0 <= j < i implies (#[trigger] names(tensors)[j]) != name by {
                assert(names(before)[j] != name);
            }
            assert(first_named(tensors, name, i));
        } else {
            assert forall|j: int| 0 <= j < before.len() implies (#[trigger] names(tensors)[j])
                != name by {
                assert(names(before).contains(names(before)[j]));
            }
            let n = tensors.len() - 1;
            assert(names(tensors)[n] == tensors.last().0@);
            if tensors.last().0@ == name {
                assert(first_named(tensors, name, n));
            }
        }
    }
}

/// Only one tensor is the first of its name.
pub proof fn the_first_of_a_name_is_found(tensors: Seq<(String, Tensor)>, name: Seq<char>, i: int)
    requires
        first_named(tensors, name, i),
    ensures
        found(tensors, name) == Some(tensors[i].1),
{
    a_name_finds_its_first_tensor(tensors, name);
    assert(names(tensors)[i] == name);
    let j = choose|j: int|
        #[trigger] first_named(tensors, name, j) && found(tensors, name)->0 == tensors[j].1;
    assert(names(tensors)[j] == name);
    assert(i == j);
}

/// Why the rows of the tensor `name` cannot be had.
pub open spec fn rows_error(tensors: Seq<(String, Tensor)>, name: Seq<char>, e: VoiceError) -> bool {
    match e {
        VoiceError::NoTensor { name: n, have } => n@ == name && found(tensors, name) is None
            && sorted_names(chars::texts(have@), tensors),
        VoiceError::NotTwoDim { name: n } => n@ == name && (found(tensors, name) matches Some(t)
            && grid_error(t, GridError::NotTwoDim)),
        VoiceError::TooLarge { name: n } => n@ == name && (found(tensors, name) matches Some(t)
            && grid_error(t, GridError::TooLarge)),
        VoiceError::Tensor(e) => found(tensors, name) matches Some(t) && grid_error(
            t,
            GridError::Tensor(e),
        ),
    }
}

/// `u` is a copy of `t`, wherever it is.
pub open spec fn copies(u: Tensor, t: Tensor) -> bool {
    shape(u) == shape(t) && content(u) == content(t) && integers(u) == integers(t)
}

/// Character by character, `a` comes before `b` or equals it.
pub open spec fn text_le(a: Seq<char>, b: Seq<char>) -> bool
    decreases a.len(),
{
    if a.len() == 0 {
        true
    } else if b.len() == 0 {
        false
    } else if a[0] == b[0] {
        text_le(a.drop_first(), b.drop_first())
    } else {
        a[0] as u32 <= b[0] as u32
    }
}

/// In the order of [`text_le`].
pub open spec fn sorted_texts(s: Seq<Seq<char>>) -> bool {
    forall|i: int, j: int| 0 <= i < j < s.len() ==> text_le(#[trigger] s[i], #[trigger] s[j])
}

proof fn lemma_text_le_total(a: Seq<char>, b: Seq<char>)
    ensures
        text_le(a, b) || text_le(b, a),
    decreases a.len(),
{
    if a.len() > 0 && b.len() > 0 && a[0] == b[0] {
        lemma_text_le_total(a.drop_first(), b.drop_first());
    }
}

proof fn lemma_text_le_transitive(a: Seq<char>, b: Seq<char>, c: Seq<char>)
    requires
        text_le(a, b),
        text_le(b, c),
    ensures
        text_le(a, c),
    decreases a.len(),
{
    if a.len() > 0 && b.len() > 0 && c.len() > 0 {
        vstd::utf8::char_u32_cast(a[0], a[0] as u32);
        vstd::utf8::char_u32_cast(b[0], b[0] as u32);
    }
    if a.len() > 0 && b.len() > 0 && c.len() > 0 && a[0] == b[0] && b[0] == c[0] {
        lemma_text_le_transitive(a.drop_first(), b.drop_first(), c.drop_first());
    }
}

fn less_or_equal(a: &str, b: &str) -> (r: bool)
    ensures
        r == text_le(a@, b@),
{
    let x = chars::to_chars(a);
    let y = chars::to_chars(b);
    let mut i: usize = 0;
    assert(x@.subrange(0, x@.len() as int) =~= x@);
    assert(y@.subrange(0, y@.len() as int) =~= y@);
    loop
        invariant
            i <= x@.len(),
            i <= y@.len(),
            text_le(x@, y@) == text_le(
                x@.subrange(i as int, x@.len() as int),
                y@.subrange(i as int, y@.len() as int),
            ),
            x@ == a@,
            y@ == b@,
        decreases x@.len() - i,
    {
        if i == x.len() {
            return true;
        }
        if i == y.len() {
            return false;
        }
        if x[i] != y[i] {
            return x[i] as u32 <= y[i] as u32;
        }
        assert(x@.subrange(i as int, x@.len() as int).drop_first() =~= x@.subrange(
            i + 1,
            x@.len() as int,
        ));
        assert(y@.subrange(i as int, y@.len() as int).drop_first() =~= y@.subrange(
            i + 1,
            y@.len() as int,
        ));
        i += 1;
    }
}

/// `out` holds the names of `tensors`, each as often, in order.
pub open spec fn sorted_names(out: Seq<Seq<char>>, tensors: Seq<(String, Tensor)>) -> bool {
    sorted_texts(out) && out.to_multiset() == names(tensors).to_multiset()
}

impl Voice {
    /// The tensors' names, sorted.
    pub fn keys(&self) -> (out: Vec<String>)
        ensures
            sorted_names(chars::texts(out@), self.tensors@),
    {
        let mut out: Vec<String> = Vec::new();
        let ghost all = names(self.tensors@);
        let mut i: usize = 0;
        proof {
            assert(chars::texts(out@) =~= all.take(0));
        }
        while i < self.tensors.len()
            invariant
                i <= self.tensors@.len(),
                all == names(self.tensors@),
                sorted_texts(chars::texts(out@)),
                chars::texts(out@).to_multiset() == all.take(i as int).to_multiset(),
            decreases self.tensors@.len() - i,
        {
            let key = self.tensors[i].0.clone();
            let ghost k = key@;
            let mut p: usize = 0;
            while p < out.len() && less_or_equal(out[p].as_str(), key.as_str())
                invariant
                    p <= out@.len(),
                    k == key@,
                    forall|j: int| 0 <= j < p ==> text_le(#[trigger] chars::texts(out@)[j], k),
                decreases out@.len() - p,
            {
                p += 1;
            }
            let ghost before = chars::texts(out@);
            out.insert(p, key);
            proof {
                let after = chars::texts(out@);
                assert(after =~= before.insert(p as int, k));
                before.to_multiset_ensures();
                vstd::seq_lib::to_multiset_insert(before, p as int, k);
                let t = all.take(i as int);
                assert(all.take(i + 1) =~= t.push(k));
                t.to_multiset_ensures();
                assert forall|a: int, b: int| 0 <= a < b < after.len() implies text_le(
                    #[trigger] after[a],
                    #[trigger] after[b],
                ) by {
                    if a == p {
                        lemma_text_le_total(before[p as int], k);
                        assert(text_le(k, before[p as int]));
                        if b - 1 > p {
                            assert(text_le(before[p as int], before[b - 1]));
                            lemma_text_le_transitive(k, before[p as int], before[b - 1]);
                        }
                    } else if b == p {
                        assert(text_le(before[a], k));
                    } else {
                        let a0 = if a < p { a } else { a - 1 };
                        let b0 = if b < p { b } else { b - 1 };
                        assert(text_le(before[a0], before[b0]));
                    }
                }
            }
            i += 1;
        }
        assert(all.take(i as int) =~= all);
        out
    }

    /// The first tensor of that name.
    pub fn get(&self, name: &str) -> (r: Result<&Tensor, VoiceError>)
        ensures
            match r {
                Ok(t) => found(self.tensors@, name@) == Some(*t) && names(self.tensors@).contains(
                    name@,
                ),
                Err(VoiceError::NoTensor { name: n, have }) => n@ == name@ && found(
                    self.tensors@,
                    name@,
                ) is None && !names(self.tensors@).contains(name@) && sorted_names(
                    chars::texts(have@),
                    self.tensors@,
                ),
                Err(_) => false,
            },
    {
        proof {
            a_name_finds_its_first_tensor(self.tensors@, name@);
        }
        let mut i: usize = 0;
        while i < self.tensors.len()
            invariant
                i <= self.tensors@.len(),
                forall|j: int| 0 <= j < i ==> (#[trigger] names(self.tensors@)[j]) != name@,
                found(self.tensors@, name@) is Some <==> names(self.tensors@).contains(name@),
            decreases self.tensors@.len() - i,
        {
            if same(self.tensors[i].0.as_str(), name) {
                proof {
                    assert(names(self.tensors@)[i as int] == name@);
                    the_first_of_a_name_is_found(self.tensors@, name@, i as int);
                }
                return Ok(&self.tensors[i].1);
            }
            i += 1;
        }
        Err(VoiceError::NoTensor { name: name.to_owned(), have: self.keys() })
    }

    /// A tensor of that name, placed on `device`. From the host to the host it is had wherever
    /// there is one.
    pub fn get_on(&self, name: &str, device: &Device) -> (r: Result<Tensor, VoiceError>)
        ensures
            !names(self.tensors@).contains(name@) <==> r matches Err(VoiceError::NoTensor { .. }),
            match r {
                Ok(u) => found(self.tensors@, name@) matches Some(t) && copies(u, t),
                Err(VoiceError::NoTensor { name: n, have }) => n@ == name@ && found(
                    self.tensors@,
                    name@,
                ) is None && sorted_names(chars::texts(have@), self.tensors@),
                Err(VoiceError::Tensor(_)) => found(self.tensors@, name@) matches Some(t)
                    && !(on_host(t) && is_host(*device)),
                Err(_) => false,
            },
    {
        match self.get(name) {
            Ok(t) => match to_device(t, device) {
                Ok(u) => Ok(u),
                Err(e) => Err(VoiceError::Tensor(e)),
            },
            Err(e) => Err(e),
        }
    }

    /// A `[rows, len]` integer tensor as rows.
    pub fn get_rows_u32(&self, name: &str) -> (r: Result<Vec<Vec<u32>>, VoiceError>)
        ensures
            !names(self.tensors@).contains(name@) <==> r matches Err(VoiceError::NoTensor { .. }),
            match r {
                Ok(rows) => found(self.tensors@, name@) matches Some(t) && gives_rows(t)
                    && reads_rows(t, grid::rows_view(rows@)),
                Err(e) => rows_error(self.tensors@, name@, e),
            },
    {
        let t = match self.get(name) {
            Ok(t) => t,
            Err(e) => {
                return Err(e);
            },
        };
        named(name, rows_of(t))
    }
}

/// A tensor is read row by row: the number in row `i` and column `j` is the tensor's element that
/// many rows and columns in.
pub proof fn tensors_are_read_row_by_row(t: Tensor, rows: Seq<Seq<u32>>, i: int, j: int)
    requires
        reads_rows(t, rows),
        0 <= i < shape(t)[0],
        0 <= j < shape(t)[1],
    ensures
        rows[i].len() == shape(t)[1],
        rows[i][j] == integers(t)[i * shape(t)[1] + j],
{
    grid::rows_of_one_length_are_row_major(rows, shape(t)[1] as nat, i, j);
}

/// Names are listed by their first difference; a name stands before those that go on from it.
pub proof fn names_are_listed_by_their_first_difference(a: Seq<char>, b: Seq<char>, d: int)
    requires
        0 <= d <= a.len(),
        d <= b.len(),
        a.subrange(0, d) == b.subrange(0, d),
        d < a.len() && d < b.len() ==> a[d] != b[d],
    ensures
        d < a.len() && d < b.len() ==> (text_le(a, b) <==> a[d] as u32 <= b[d] as u32),
        d == a.len() ==> text_le(a, b),
        d == b.len() && d < a.len() ==> !text_le(a, b),
    decreases d,
{
    if d > 0 {
        let (p, q) = (a.drop_first(), b.drop_first());
        assert(a[0] == a.subrange(0, d)[0]);
        assert(b[0] == b.subrange(0, d)[0]);
        assert(p.subrange(0, d - 1) =~= a.subrange(0, d).subrange(1, d));
        assert(q.subrange(0, d - 1) =~= b.subrange(0, d).subrange(1, d));
        names_are_listed_by_their_first_difference(p, q, d - 1);
    }
}

/// The names of a voice's tensors are listed in order, each as often as it occurs.
pub proof fn listed_names_are_those_of_the_tensors(
    out: Seq<Seq<char>>,
    tensors: Seq<(String, Tensor)>,
    i: int,
    j: int,
)
    requires
        sorted_names(out, tensors),
    ensures
        out.len() == tensors.len(),
        0 <= i < j < out.len() ==> text_le(out[i], out[j]),
        0 <= i < tensors.len() ==> out.contains(tensors[i].0@),
        forall|name: Seq<char>|
            #[trigger] out.contains(name) <==> exists|k: int|
                0 <= k < tensors.len() && (#[trigger] tensors[k]).0@ == name,
{
    let given = names(tensors);
    out.to_multiset_ensures();
    given.to_multiset_ensures();
    assert(out.to_multiset().len() == given.to_multiset().len());
    assert forall|name: Seq<char>| #[trigger] out.contains(name) <==> exists|k: int|
        0 <= k < tensors.len() && (#[trigger] tensors[k]).0@ == name by {
        assert(out.to_multiset().count(name) == given.to_multiset().count(name));
        assert(out.contains(name) <==> given.contains(name));
        if given.contains(name) {
            let k = choose|k: int| 0 <= k < given.len() && given[k] == name;
            assert(tensors[k].0@ == name);
        }
        if exists|k: int| 0 <= k < tensors.len() && (#[trigger] tensors[k]).0@ == name {
            let k = choose|k: int| 0 <= k < tensors.len() && (#[trigger] tensors[k]).0@ == name;
            assert(given[k] == name);
        }
    }
    if 0 <= i < tensors.len() {
        assert(tensors[i].0@ == tensors[i].0@);
    }
}

/// A shape spans the product of its sizes.
pub proof fn a_shape_spans_the_product_of_its_sizes(dims: Seq<usize>, n: usize)
    ensures
        elements(Seq::empty()) == 1,
        elements(dims.push(n)) == elements(dims) * n,
{
    assert(dims.push(n).drop_last() =~= dims);
}

/// A tensor on the host gives its rows where it casts, has two sizes and can be addressed; where it
/// does not have two sizes or is too large it is told so.
pub proof fn a_tensor_gives_rows_or_says_why(t: Tensor, e: GridError)
    requires
        on_host(t),
        castable(t),
        grid_error(t, e),
    ensures
        !gives_rows(t),
        e is NotTwoDim <==> shape(t).len() != 2,
        e is TooLarge <==> shape(t).len() == 2 && elements(shape(t)) > usize::MAX,
        !(e is Tensor),
{
}

/// What is wrong with a tensor is told of the tensor of that name; one that is not there is told with
/// the names that are.
pub proof fn a_problem_is_told_of_its_tensor(
    tensors: Seq<(String, Tensor)>,
    name: Seq<char>,
    e: VoiceError,
)
    requires
        rows_error(tensors, name, e),
    ensures
        e is NoTensor <==> !names(tensors).contains(name),
        e matches VoiceError::NoTensor { name: n, have } ==> n@ == name && sorted_names(
            chars::texts(have@),
            tensors,
        ),
        e matches VoiceError::NotTwoDim { name: n } ==> n@ == name && shape(
            found(tensors, name)->0,
        ).len() != 2,
        e matches VoiceError::TooLarge { name: n } ==> n@ == name && elements(
            shape(found(tensors, name)->0),
        ) > usize::MAX,
{
    a_name_finds_its_first_tensor(tensors, name);
}

/// A copy has the shape and the elements of what it copies.
pub proof fn a_copy_holds_the_same(u: Tensor, t: Tensor)
    requires
        copies(u, t),
    ensures
        shape(u) == shape(t),
        content(u) == content(t),
        integers(u) == integers(t),
        copies(t, u),
{
}

} // verus!
