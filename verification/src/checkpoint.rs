//! The weights of a Wav2Vec2 CTC model, read from a checkpoint by name.

use vstd::hash_map::StringHashMap;
use vstd::prelude::*;

use crate::chars::{decimal, law_numeral_round_trip, numeral};
use crate::config::ModelConfig;
use crate::raw_tensor::{bytes_of, decoded, Decoded, DecodedView, Dtype, RawTensor};

verus! {

/// Why a model cannot be loaded.
#[derive(Debug)]
pub enum LoadError {
    /// A tensor is not in the checkpoint.
    Missing { name: String },
    /// The elements of a tensor are of a type that is not decoded.
    UnsupportedDtype { dtype: Dtype },
    /// The weight of a linear layer is not a matrix.
    NotAMatrix { prefix: String, shape: Vec<usize> },
    /// The elements of a linear layer are not as many as its shape asks for.
    SizeMismatch { prefix: String },
    /// The weight of a convolution is not of three dimensions.
    ConvShape { layer: usize, shape: Vec<usize> },
    /// The configuration gives no stride for a convolution.
    NoStride { layer: usize },
    /// The configuration gives no group for the positional convolution.
    NoGroups,
    /// The positional convolution does not have as many elements as the
    /// configuration asks for.
    PosConvLen { len: usize },
    /// The gains of the positional convolution are neither one nor enough for
    /// its kernel.
    PosConvGains { len: usize },
    /// The configuration gives no attention head.
    NoHeads,
}

/// The contents of a [`LoadError`].
pub enum LoadErrorView {
    Missing { name: Seq<char> },
    UnsupportedDtype { dtype: Dtype },
    NotAMatrix { prefix: Seq<char>, shape: Seq<usize> },
    SizeMismatch { prefix: Seq<char> },
    ConvShape { layer: int, shape: Seq<usize> },
    NoStride { layer: int },
    NoGroups,
    PosConvLen { len: int },
    PosConvGains { len: int },
    NoHeads,
}

impl View for LoadError {
    type V = LoadErrorView;

    open spec fn view(&self) -> LoadErrorView {
        match self {
            LoadError::Missing { name } => LoadErrorView::Missing { name: name@ },
            LoadError::UnsupportedDtype { dtype } => LoadErrorView::UnsupportedDtype {
                dtype: *dtype,
            },
            LoadError::NotAMatrix { prefix, shape } => LoadErrorView::NotAMatrix {
                prefix: prefix@,
                shape: shape@,
            },
            LoadError::SizeMismatch { prefix } => LoadErrorView::SizeMismatch { prefix: prefix@ },
            LoadError::ConvShape { layer, shape } => LoadErrorView::ConvShape {
                layer: *layer as int,
                shape: shape@,
            },
            LoadError::NoStride { layer } => LoadErrorView::NoStride { layer: *layer as int },
            LoadError::NoGroups => LoadErrorView::NoGroups,
            LoadError::PosConvLen { len } => LoadErrorView::PosConvLen { len: *len as int },
            LoadError::PosConvGains { len } => LoadErrorView::PosConvGains { len: *len as int },
            LoadError::NoHeads => LoadErrorView::NoHeads,
        }
    }
}

/// What a reading gives, by contents.
pub open spec fn outcome<T: View>(r: Result<T, LoadError>) -> Result<T::V, LoadErrorView> {
    match r {
        Ok(v) => Ok(v@),
        Err(e) => Err(e@),
    }
}

/// The tensors of a checkpoint, by name.
pub type Tensors = Map<Seq<char>, RawTensor>;

/// The tensor of a name.
pub open spec fn find(tensors: Tensors, name: Seq<char>) -> Result<RawTensor, LoadErrorView> {
    if tensors.contains_key(name) {
        Ok(tensors[name])
    } else {
        Err(LoadErrorView::Missing { name })
    }
}

/// The elements of a tensor.
pub open spec fn values(tensor: RawTensor) -> Result<DecodedView, LoadErrorView> {
    match decoded(tensor.dtype, bytes_of(tensor.data)) {
        Some(d) => Ok(d),
        None => Err(LoadErrorView::UnsupportedDtype { dtype: tensor.dtype }),
    }
}

/// The elements of the tensor of a name.
pub open spec fn find_values(tensors: Tensors, name: Seq<char>) -> Result<
    DecodedView,
    LoadErrorView,
> {
    match find(tensors, name) {
        Ok(tensor) => values(tensor),
        Err(e) => Err(e),
    }
}

/// Finds a tensor.
fn get_tensor<'a>(tensors: &'a StringHashMap<RawTensor>, name: &str) -> (r: Result<
    &'a RawTensor,
    LoadError,
>)
    ensures
        match r {
            Ok(tensor) => find(tensors@, name@) == Ok::<RawTensor, LoadErrorView>(*tensor),
            Err(e) => find(tensors@, name@) == Err::<RawTensor, LoadErrorView>(e@),
        },
{
    match tensors.get(name) {
        Some(tensor) => Ok(tensor),
        None => Err(LoadError::Missing { name: name.to_owned() }),
    }
}

/// Decodes a tensor.
fn get_values(tensor: &RawTensor) -> (r: Result<Decoded, LoadError>)
    ensures
        outcome(r) == values(*tensor),
{
    match tensor.decode() {
        Ok(d) => Ok(d),
        Err(e) => Err(LoadError::UnsupportedDtype { dtype: e.dtype }),
    }
}

/// Finds a tensor and decodes it.
fn get_named_values(tensors: &StringHashMap<RawTensor>, name: &str) -> (r: Result<
    Decoded,
    LoadError,
>)
    ensures
        outcome(r) == find_values(tensors@, name@),
{
    match get_tensor(tensors, name) {
        Ok(tensor) => get_values(tensor),
        Err(e) => Err(e),
    }
}

/// A text and what follows it.
fn concat(a: &str, b: &str) -> (r: String)
    ensures
        r@ == a@ + b@,
{
    let mut r = a.to_owned();
    r.append(b);
    r
}

/// A linear layer: a row-major `(out, inn)` matrix and a bias.
#[derive(Debug)]
pub struct Linear {
    pub w: Decoded,
    pub b: Decoded,
    pub out: usize,
    pub inn: usize,
}

/// The contents of a [`Linear`].
pub struct LinearView {
    pub w: DecodedView,
    pub b: DecodedView,
    pub out: int,
    pub inn: int,
}

impl View for Linear {
    type V = LinearView;

    open spec fn view(&self) -> LinearView {
        LinearView { w: self.w@, b: self.b@, out: self.out as int, inn: self.inn as int }
    }
}

/// The linear layer of a prefix: the tensors `.weight` and `.bias`, the first
/// a matrix, with as many elements as its shape asks for.
pub open spec fn linear(tensors: Tensors, prefix: Seq<char>) -> Result<LinearView, LoadErrorView> {
    match (find(tensors, prefix + ".weight"@), find(tensors, prefix + ".bias"@)) {
        (Ok(w_t), Ok(b_t)) => if w_t.shape@.len() != 2 {
            Err(LoadErrorView::NotAMatrix { prefix, shape: w_t.shape@ })
        } else {
            match (values(w_t), values(b_t)) {
                (Ok(w), Ok(b)) => if w.len() != w_t.shape@[0] * w_t.shape@[1] || b.len()
                    != w_t.shape@[0] {
                    Err(LoadErrorView::SizeMismatch { prefix })
                } else {
                    Ok(
                        LinearView {
                            w,
                            b,
                            out: w_t.shape@[0] as int,
                            inn: w_t.shape@[1] as int,
                        },
                    )
                },
                (Err(e), _) => Err(e),
                (_, Err(e)) => Err(e),
            }
        },
        (Err(e), _) => Err(e),
        (_, Err(e)) => Err(e),
    }
}

impl Linear {
    /// Reads a linear layer.
    pub fn from_map(tensors: &StringHashMap<RawTensor>, prefix: &str) -> (r: Result<
        Linear,
        LoadError,
    >)
        ensures
            outcome(r) == linear(tensors@, prefix@),
    {
        let w_t = match get_tensor(tensors, concat(prefix, ".weight").as_str()) {
            Ok(tensor) => tensor,
            Err(e) => return Err(e),
        };
        let b_t = match get_tensor(tensors, concat(prefix, ".bias").as_str()) {
            Ok(tensor) => tensor,
            Err(e) => return Err(e),
        };
        if w_t.shape.len() != 2 {
            let shape = w_t.shape.clone();
            assert(shape@ =~= w_t.shape@);
            return Err(LoadError::NotAMatrix { prefix: prefix.to_owned(), shape });
        }
        let out = w_t.shape[0];
        let inn = w_t.shape[1];
        let w = match get_values(w_t) {
            Ok(d) => d,
            Err(e) => return Err(e),
        };
        let b = match get_values(b_t) {
            Ok(d) => d,
            Err(e) => return Err(e),
        };
        let w_len = w.len();
        let fits = match out.checked_mul(inn) {
            Some(n) => w_len == n && b.len() == out,
            None => false,
        };
        if !fits {
            return Err(LoadError::SizeMismatch { prefix: prefix.to_owned() });
        }
        Ok(Linear { w, b, out, inn })
    }
}

/// A layer normalisation.
#[derive(Debug)]
pub struct LayerNorm {
    pub w: Decoded,
    pub b: Decoded,
}

/// The contents of a [`LayerNorm`].
pub struct LayerNormView {
    pub w: DecodedView,
    pub b: DecodedView,
}

impl View for LayerNorm {
    type V = LayerNormView;

    open spec fn view(&self) -> LayerNormView {
        LayerNormView { w: self.w@, b: self.b@ }
    }
}

/// The layer normalisation of a prefix.
pub open spec fn layer_norm(tensors: Tensors, prefix: Seq<char>) -> Result<
    LayerNormView,
    LoadErrorView,
> {
    match (
        find_values(tensors, prefix + ".weight"@),
        find_values(tensors, prefix + ".bias"@),
    ) {
        (Ok(w), Ok(b)) => Ok(LayerNormView { w, b }),
        (Err(e), _) => Err(e),
        (_, Err(e)) => Err(e),
    }
}

impl LayerNorm {
    /// Reads a layer normalisation.
    pub fn from_map(tensors: &StringHashMap<RawTensor>, prefix: &str) -> (r: Result<
        LayerNorm,
        LoadError,
    >)
        ensures
            outcome(r) == layer_norm(tensors@, prefix@),
    {
        let w = match get_named_values(tensors, concat(prefix, ".weight").as_str()) {
            Ok(d) => d,
            Err(e) => return Err(e),
        };
        let b = match get_named_values(tensors, concat(prefix, ".bias").as_str()) {
            Ok(d) => d,
            Err(e) => return Err(e),
        };
        Ok(LayerNorm { w, b })
    }
}

/// A convolution over time: an `(out_ch, in_ch, k)` weight, a bias, and maybe a
/// normalisation.
#[derive(Debug)]
pub struct Conv1dLayer {
    pub w: Decoded,
    pub b: Decoded,
    pub out_ch: usize,
    pub in_ch: usize,
    pub k: usize,
    pub stride: usize,
    pub ln: Option<LayerNorm>,
}

/// The contents of a [`Conv1dLayer`].
pub struct Conv1dLayerView {
    pub w: DecodedView,
    pub b: DecodedView,
    pub out_ch: int,
    pub in_ch: int,
    pub k: int,
    pub stride: int,
    pub ln: Option<LayerNormView>,
}

impl View for Conv1dLayer {
    type V = Conv1dLayerView;

    open spec fn view(&self) -> Conv1dLayerView {
        Conv1dLayerView {
            w: self.w@,
            b: self.b@,
            out_ch: self.out_ch as int,
            in_ch: self.in_ch as int,
            k: self.k as int,
            stride: self.stride as int,
            ln: match self.ln {
                Some(ln) => Some(ln@),
                None => None,
            },
        }
    }
}

/// The prefix of convolution `i`.
pub open spec fn conv_prefix(i: int) -> Seq<char> {
    "wav2vec2.feature_extractor.conv_layers."@ + numeral(i as nat)
}

/// The normalisation of a convolution, if its weight is there.
pub open spec fn conv_norm(tensors: Tensors, prefix: Seq<char>) -> Result<
    Option<LayerNormView>,
    LoadErrorView,
> {
    if tensors.contains_key(prefix + ".layer_norm.weight"@) {
        match layer_norm(tensors, prefix + ".layer_norm"@) {
            Ok(ln) => Ok(Some(ln)),
            Err(e) => Err(e),
        }
    } else {
        Ok(None)
    }
}

/// Convolution `i`.
pub open spec fn conv(tensors: Tensors, strides: Seq<usize>, i: int) -> Result<
    Conv1dLayerView,
    LoadErrorView,
> {
    let prefix = conv_prefix(i);
    match (find(tensors, prefix + ".conv.weight"@), find(tensors, prefix + ".conv.bias"@)) {
        (Ok(w_t), Ok(b_t)) => if w_t.shape@.len() != 3 {
            Err(LoadErrorView::ConvShape { layer: i, shape: w_t.shape@ })
        } else {
            match (values(w_t), values(b_t), conv_norm(tensors, prefix)) {
                (Ok(w), Ok(b), Ok(ln)) => if i >= strides.len() {
                    Err(LoadErrorView::NoStride { layer: i })
                } else {
                    Ok(
                        Conv1dLayerView {
                            w,
                            b,
                            out_ch: w_t.shape@[0] as int,
                            in_ch: w_t.shape@[1] as int,
                            k: w_t.shape@[2] as int,
                            stride: strides[i] as int,
                            ln,
                        },
                    )
                },
                (Err(e), _, _) => Err(e),
                (_, Err(e), _) => Err(e),
                (_, _, Err(e)) => Err(e),
            }
        },
        (Err(e), _) => Err(e),
        (_, Err(e)) => Err(e),
    }
}

impl Conv1dLayer {
    /// Reads convolution `i`.
    pub fn from_map(tensors: &StringHashMap<RawTensor>, strides: &[usize], i: usize) -> (r: Result<
        Conv1dLayer,
        LoadError,
    >)
        ensures
            outcome(r) == conv(tensors@, strides@, i as int),
    {
        let prefix = concat("wav2vec2.feature_extractor.conv_layers.", decimal(i).as_str());
        let w_t = match get_tensor(tensors, concat(prefix.as_str(), ".conv.weight").as_str()) {
            Ok(tensor) => tensor,
            Err(e) => return Err(e),
        };
        let b_t = match get_tensor(tensors, concat(prefix.as_str(), ".conv.bias").as_str()) {
            Ok(tensor) => tensor,
            Err(e) => return Err(e),
        };
        if w_t.shape.len() != 3 {
            let shape = w_t.shape.clone();
            assert(shape@ =~= w_t.shape@);
            return Err(LoadError::ConvShape { layer: i, shape });
        }
        let w = match get_values(w_t) {
            Ok(d) => d,
            Err(e) => return Err(e),
        };
        let b = match get_values(b_t) {
            Ok(d) => d,
            Err(e) => return Err(e),
        };
        let ln = if tensors.contains_key(concat(prefix.as_str(), ".layer_norm.weight").as_str()) {
            match LayerNorm::from_map(tensors, concat(prefix.as_str(), ".layer_norm").as_str()) {
                Ok(ln) => Some(ln),
                Err(e) => return Err(e),
            }
        } else {
            None
        };
        if i >= strides.len() {
            return Err(LoadError::NoStride { layer: i });
        }
        Ok(
            Conv1dLayer {
                w,
                b,
                out_ch: w_t.shape[0],
                in_ch: w_t.shape[1],
                k: w_t.shape[2],
                stride: strides[i],
                ln,
            },
        )
    }
}

/// A layer of the encoder.
#[derive(Debug)]
pub struct EncoderLayer {
    pub ln_attn: LayerNorm,
    pub q: Linear,
    pub k: Linear,
    pub v: Linear,
    pub out: Linear,
    pub ln_ff: LayerNorm,
    pub ff_inter: Linear,
    pub ff_out: Linear,
}

/// The contents of an [`EncoderLayer`].
pub struct EncoderLayerView {
    pub ln_attn: LayerNormView,
    pub q: LinearView,
    pub k: LinearView,
    pub v: LinearView,
    pub out: LinearView,
    pub ln_ff: LayerNormView,
    pub ff_inter: LinearView,
    pub ff_out: LinearView,
}

impl View for EncoderLayer {
    type V = EncoderLayerView;

    open spec fn view(&self) -> EncoderLayerView {
        EncoderLayerView {
            ln_attn: self.ln_attn@,
            q: self.q@,
            k: self.k@,
            v: self.v@,
            out: self.out@,
            ln_ff: self.ln_ff@,
            ff_inter: self.ff_inter@,
            ff_out: self.ff_out@,
        }
    }
}

/// The prefix of encoder layer `i`.
pub open spec fn encoder_prefix(i: int) -> Seq<char> {
    "wav2vec2.encoder.layers."@ + numeral(i as nat)
}

/// The first error among the parts of an encoder layer, in the order in which
/// they are read.
pub open spec fn encoder_error(
    ln_attn: Result<LayerNormView, LoadErrorView>,
    linears: Seq<Result<LinearView, LoadErrorView>>,
    ln_ff: Result<LayerNormView, LoadErrorView>,
) -> LoadErrorView {
    if ln_attn is Err {
        ln_attn->Err_0
    } else if linears[0] is Err {
        linears[0]->Err_0
    } else if linears[1] is Err {
        linears[1]->Err_0
    } else if linears[2] is Err {
        linears[2]->Err_0
    } else if linears[3] is Err {
        linears[3]->Err_0
    } else if ln_ff is Err {
        ln_ff->Err_0
    } else if linears[4] is Err {
        linears[4]->Err_0
    } else {
        linears[5]->Err_0
    }
}

/// Encoder layer `i`.
pub open spec fn encoder_layer(tensors: Tensors, i: int) -> Result<
    EncoderLayerView,
    LoadErrorView,
> {
    let base = encoder_prefix(i);
    let ln_attn = layer_norm(tensors, base + ".layer_norm"@);
    let q = linear(tensors, base + ".attention.q_proj"@);
    let k = linear(tensors, base + ".attention.k_proj"@);
    let v = linear(tensors, base + ".attention.v_proj"@);
    let out = linear(tensors, base + ".attention.out_proj"@);
    let ln_ff = layer_norm(tensors, base + ".final_layer_norm"@);
    let ff_inter = linear(tensors, base + ".feed_forward.intermediate_dense"@);
    let ff_out = linear(tensors, base + ".feed_forward.output_dense"@);
    if ln_attn is Ok && q is Ok && k is Ok && v is Ok && out is Ok && ln_ff is Ok && ff_inter is Ok
        && ff_out is Ok {
        Ok(
            EncoderLayerView {
                ln_attn: ln_attn->Ok_0,
                q: q->Ok_0,
                k: k->Ok_0,
                v: v->Ok_0,
                out: out->Ok_0,
                ln_ff: ln_ff->Ok_0,
                ff_inter: ff_inter->Ok_0,
                ff_out: ff_out->Ok_0,
            },
        )
    } else {
        Err(encoder_error(ln_attn, seq![q, k, v, out, ff_inter, ff_out], ln_ff))
    }
}

impl EncoderLayer {
    /// Reads encoder layer `i`.
    pub fn from_map(tensors: &StringHashMap<RawTensor>, i: usize) -> (r: Result<
        EncoderLayer,
        LoadError,
    >)
        ensures
            outcome(r) == encoder_layer(tensors@, i as int),
    {
        let base = concat("wav2vec2.encoder.layers.", decimal(i).as_str());
        let base = base.as_str();
        let ln_attn = match LayerNorm::from_map(tensors, concat(base, ".layer_norm").as_str()) {
            Ok(part) => part,
            Err(e) => return Err(e),
        };
        let q = match Linear::from_map(tensors, concat(base, ".attention.q_proj").as_str()) {
            Ok(part) => part,
            Err(e) => return Err(e),
        };
        let k = match Linear::from_map(tensors, concat(base, ".attention.k_proj").as_str()) {
            Ok(part) => part,
            Err(e) => return Err(e),
        };
        let v = match Linear::from_map(tensors, concat(base, ".attention.v_proj").as_str()) {
            Ok(part) => part,
            Err(e) => return Err(e),
        };
        let out = match Linear::from_map(tensors, concat(base, ".attention.out_proj").as_str()) {
            Ok(part) => part,
            Err(e) => return Err(e),
        };
        let ln_ff = match LayerNorm::from_map(
            tensors,
            concat(base, ".final_layer_norm").as_str(),
        ) {
            Ok(part) => part,
            Err(e) => return Err(e),
        };
        let ff_inter = match Linear::from_map(
            tensors,
            concat(base, ".feed_forward.intermediate_dense").as_str(),
        ) {
            Ok(part) => part,
            Err(e) => return Err(e),
        };
        let ff_out = match Linear::from_map(
            tensors,
            concat(base, ".feed_forward.output_dense").as_str(),
        ) {
            Ok(part) => part,
            Err(e) => return Err(e),
        };
        Ok(EncoderLayer { ln_attn, q, k, v, out, ln_ff, ff_inter, ff_out })
    }
}

/// The contents of a list of parts.
pub open spec fn views<T: View>(parts: Seq<T>) -> Seq<T::V> {
    Seq::new(parts.len(), |i: int| parts[i]@)
}

/// The first `n` convolutions.
pub open spec fn convs(tensors: Tensors, strides: Seq<usize>, n: int) -> Result<
    Seq<Conv1dLayerView>,
    LoadErrorView,
>
    decreases n,
{
    if n <= 0 {
        Ok(Seq::empty())
    } else {
        match convs(tensors, strides, n - 1) {
            Ok(before) => match conv(tensors, strides, n - 1) {
                Ok(layer) => Ok(before.push(layer)),
                Err(e) => Err(e),
            },
            Err(e) => Err(e),
        }
    }
}

/// The first `n` layers of the encoder.
pub open spec fn encoder_layers(tensors: Tensors, n: int) -> Result<
    Seq<EncoderLayerView>,
    LoadErrorView,
>
    decreases n,
{
    if n <= 0 {
        Ok(Seq::empty())
    } else {
        match encoder_layers(tensors, n - 1) {
            Ok(before) => match encoder_layer(tensors, n - 1) {
                Ok(layer) => Ok(before.push(layer)),
                Err(e) => Err(e),
            },
            Err(e) => Err(e),
        }
    }
}

/// A list fails as soon as one of its parts does.
proof fn lemma_convs_fail(tensors: Tensors, strides: Seq<usize>, i: int, n: int)
    requires
        0 <= i <= n,
        convs(tensors, strides, i) is Err,
    ensures
        convs(tensors, strides, n) == convs(tensors, strides, i),
    decreases n,
{
    if i < n {
        lemma_convs_fail(tensors, strides, i, n - 1);
    }
}

proof fn lemma_encoder_layers_fail(tensors: Tensors, i: int, n: int)
    requires
        0 <= i <= n,
        encoder_layers(tensors, i) is Err,
    ensures
        encoder_layers(tensors, n) == encoder_layers(tensors, i),
    decreases n,
{
    if i < n {
        lemma_encoder_layers_fail(tensors, i, n - 1);
    }
}

/// Reads the convolutions.
fn get_convs(tensors: &StringHashMap<RawTensor>, strides: &[usize], n: usize) -> (r: Result<
    Vec<Conv1dLayer>,
    LoadError,
>)
    ensures
        match r {
            Ok(layers) => convs(tensors@, strides@, n as int) == Ok::<
                Seq<Conv1dLayerView>,
                LoadErrorView,
            >(views(layers@)),
            Err(e) => convs(tensors@, strides@, n as int) == Err::<
                Seq<Conv1dLayerView>,
                LoadErrorView,
            >(e@),
        },
{
    let mut layers: Vec<Conv1dLayer> = Vec::new();
    let mut i: usize = 0;
    assert(views(layers@) =~= Seq::<Conv1dLayerView>::empty());
    while i < n
        invariant
            i <= n,
            convs(tensors@, strides@, i as int) == Ok::<Seq<Conv1dLayerView>, LoadErrorView>(
                views(layers@),
            ),
        decreases n - i,
    {
        match Conv1dLayer::from_map(tensors, strides, i) {
            Ok(layer) => {
                let ghost before = layers@;
                layers.push(layer);
                assert(views(layers@) =~= views(before).push(layer@));
            },
            Err(e) => {
                proof {
                    lemma_convs_fail(tensors@, strides@, i + 1, n as int);
                }
                return Err(e);
            },
        }
        i += 1;
    }
    Ok(layers)
}

/// Reads the layers of the encoder.
fn get_encoder_layers(tensors: &StringHashMap<RawTensor>, n: usize) -> (r: Result<
    Vec<EncoderLayer>,
    LoadError,
>)
    ensures
        match r {
            Ok(layers) => encoder_layers(tensors@, n as int) == Ok::<
                Seq<EncoderLayerView>,
                LoadErrorView,
            >(views(layers@)),
            Err(e) => encoder_layers(tensors@, n as int) == Err::<
                Seq<EncoderLayerView>,
                LoadErrorView,
            >(e@),
        },
{
    let mut layers: Vec<EncoderLayer> = Vec::new();
    let mut i: usize = 0;
    assert(views(layers@) =~= Seq::<EncoderLayerView>::empty());
    while i < n
        invariant
            i <= n,
            encoder_layers(tensors@, i as int) == Ok::<Seq<EncoderLayerView>, LoadErrorView>(
                views(layers@),
            ),
        decreases n - i,
    {
        match EncoderLayer::from_map(tensors, i) {
            Ok(layer) => {
                let ghost before = layers@;
                layers.push(layer);
                assert(views(layers@) =~= views(before).push(layer@));
            },
            Err(e) => {
                proof {
                    lemma_encoder_layers_fail(tensors@, i + 1, n as int);
                }
                return Err(e);
            },
        }
        i += 1;
    }
    Ok(layers)
}

/// The gains of the positional convolution.
pub const POS_CONV_GAINS: &'static str =
    "wav2vec2.encoder.pos_conv_embed.conv.parametrizations.weight.original0";

/// The directions of the positional convolution.
pub const POS_CONV_DIRECTIONS: &'static str =
    "wav2vec2.encoder.pos_conv_embed.conv.parametrizations.weight.original1";

/// The bias of the positional convolution.
pub const POS_CONV_BIAS: &'static str = "wav2vec2.encoder.pos_conv_embed.conv.bias";

/// The positional convolution, as gains and directions: the weight of a tap is
/// its gain times its direction over the norm of the tap's directions.
#[derive(Debug)]
pub struct PosConv {
    /// One gain, or one for each tap.
    pub gains: Decoded,
    /// `(hidden, hidden / groups, k)`
    pub directions: Decoded,
    pub bias: Decoded,
    pub k: usize,
    pub groups: usize,
    /// The channels of a group.
    pub group_width: usize,
}

/// The contents of a [`PosConv`].
pub struct PosConvView {
    pub gains: DecodedView,
    pub directions: DecodedView,
    pub bias: DecodedView,
    pub k: int,
    pub groups: int,
    pub group_width: int,
}

impl PosConvView {
    /// Whether there are as many directions as the width of the model asks for,
    /// and one gain or enough.
    pub open spec fn fits(self, hidden: int) -> bool {
        &&& self.directions.len() == hidden * self.group_width * self.k
        &&& self.gains.len() == 1 || self.gains.len() >= self.k
    }
}

impl View for PosConv {
    type V = PosConvView;

    open spec fn view(&self) -> PosConvView {
        PosConvView {
            gains: self.gains@,
            directions: self.directions@,
            bias: self.bias@,
            k: self.k as int,
            groups: self.groups as int,
            group_width: self.group_width as int,
        }
    }
}

/// The positional convolution.
pub open spec fn pos_conv(tensors: Tensors, hidden: int, k: int, groups: int) -> Result<
    PosConvView,
    LoadErrorView,
> {
    match (
        find_values(tensors, POS_CONV_GAINS@),
        find_values(tensors, POS_CONV_DIRECTIONS@),
        find_values(tensors, POS_CONV_BIAS@),
    ) {
        (Ok(gains), Ok(directions), Ok(bias)) => if groups == 0 {
            Err(LoadErrorView::NoGroups)
        } else if directions.len() != hidden * (hidden / groups) * k {
            Err(LoadErrorView::PosConvLen { len: directions.len() as int })
        } else if gains.len() != 1 && gains.len() < k {
            Err(LoadErrorView::PosConvGains { len: gains.len() as int })
        } else {
            Ok(
                PosConvView {
                    gains,
                    directions,
                    bias,
                    k,
                    groups,
                    group_width: hidden / groups,
                },
            )
        },
        (Err(e), _, _) => Err(e),
        (_, Err(e), _) => Err(e),
        (_, _, Err(e)) => Err(e),
    }
}

/// `a * b * c`, where it fits.
fn product(a: usize, b: usize, c: usize) -> (r: Option<usize>)
    ensures
        match r {
            Some(n) => n == a * b * c,
            None => a * b * c > usize::MAX,
        },
{
    match a.checked_mul(b) {
        Some(ab) => ab.checked_mul(c),
        None => if c == 0 {
            assert(a * b * 0 == 0) by (nonlinear_arith);
            Some(0)
        } else {
            assert(a * b * c >= a * b) by (nonlinear_arith)
                requires
                    a * b >= 0,
                    c >= 1,
            ;
            None
        },
    }
}

impl PosConv {
    /// Reads the positional convolution.
    pub fn from_map(
        tensors: &StringHashMap<RawTensor>,
        hidden: usize,
        k: usize,
        groups: usize,
    ) -> (r: Result<PosConv, LoadError>)
        ensures
            outcome(r) == pos_conv(tensors@, hidden as int, k as int, groups as int),
    {
        let gains = match get_named_values(tensors, POS_CONV_GAINS) {
            Ok(d) => d,
            Err(e) => return Err(e),
        };
        let directions = match get_named_values(tensors, POS_CONV_DIRECTIONS) {
            Ok(d) => d,
            Err(e) => return Err(e),
        };
        let bias = match get_named_values(tensors, POS_CONV_BIAS) {
            Ok(d) => d,
            Err(e) => return Err(e),
        };
        if groups == 0 {
            return Err(LoadError::NoGroups);
        }
        let group_width = hidden / groups;
        let len = directions.len();
        let fits = match product(hidden, group_width, k) {
            Some(n) => len == n,
            None => false,
        };
        if !fits {
            return Err(LoadError::PosConvLen { len });
        }
        let gains_len = gains.len();
        if gains_len != 1 && gains_len < k {
            return Err(LoadError::PosConvGains { len: gains_len });
        }
        Ok(PosConv { gains, directions, bias, k, groups, group_width })
    }
}

/// The weights of a model, as a checkpoint holds them, and its configuration.
#[derive(Debug)]
pub struct Checkpoint {
    pub config: ModelConfig,
    pub conv_layers: Vec<Conv1dLayer>,
    pub feat_proj_ln: LayerNorm,
    pub feat_proj: Linear,
    pub pos_conv: PosConv,
    pub layers: Vec<EncoderLayer>,
    pub n_heads: usize,
    pub head_dim: usize,
    pub encoder_ln: LayerNorm,
    pub lm_head: Linear,
}

/// The contents of an [`Checkpoint`].
pub struct CheckpointView {
    pub config: ModelConfig,
    pub conv_layers: Seq<Conv1dLayerView>,
    pub feat_proj_ln: LayerNormView,
    pub feat_proj: LinearView,
    pub pos_conv: PosConvView,
    pub layers: Seq<EncoderLayerView>,
    pub n_heads: int,
    pub head_dim: int,
    pub encoder_ln: LayerNormView,
    pub lm_head: LinearView,
}

impl View for Checkpoint {
    type V = CheckpointView;

    open spec fn view(&self) -> CheckpointView {
        CheckpointView {
            config: self.config,
            conv_layers: views(self.conv_layers@),
            feat_proj_ln: self.feat_proj_ln@,
            feat_proj: self.feat_proj@,
            pos_conv: self.pos_conv@,
            layers: views(self.layers@),
            n_heads: self.n_heads as int,
            head_dim: self.head_dim as int,
            encoder_ln: self.encoder_ln@,
            lm_head: self.lm_head@,
        }
    }
}

/// The part of a model that comes before the encoder's layers.
pub open spec fn frontend(tensors: Tensors, config: ModelConfig) -> Result<
    (Seq<Conv1dLayerView>, LayerNormView, LinearView, PosConvView),
    LoadErrorView,
> {
    match (
        convs(tensors, config.conv_stride@, config.conv_dim@.len() as int),
        layer_norm(tensors, "wav2vec2.feature_projection.layer_norm"@),
        linear(tensors, "wav2vec2.feature_projection.projection"@),
        pos_conv(
            tensors,
            config.hidden_size as int,
            config.num_conv_pos_embeddings as int,
            config.num_conv_pos_embedding_groups as int,
        ),
    ) {
        (Ok(conv_layers), Ok(ln), Ok(projection), Ok(pos)) => Ok((conv_layers, ln, projection, pos)),
        (Err(e), _, _, _) => Err(e),
        (_, Err(e), _, _) => Err(e),
        (_, _, Err(e), _) => Err(e),
        (_, _, _, Err(e)) => Err(e),
    }
}

/// The weights of a model of a configuration; the first part that cannot be
/// read says why there are none.
pub open spec fn checkpoint_of(tensors: Tensors, config: ModelConfig) -> Result<
    CheckpointView,
    LoadErrorView,
> {
    match frontend(tensors, config) {
        Err(e) => Err(e),
        Ok(front) => if config.num_attention_heads == 0 {
            Err(LoadErrorView::NoHeads)
        } else {
            match (
                encoder_layers(tensors, config.num_hidden_layers as int),
                layer_norm(tensors, "wav2vec2.encoder.layer_norm"@),
                linear(tensors, "lm_head"@),
            ) {
                (Ok(layers), Ok(encoder_ln), Ok(lm_head)) => Ok(
                    CheckpointView {
                        config,
                        conv_layers: front.0,
                        feat_proj_ln: front.1,
                        feat_proj: front.2,
                        pos_conv: front.3,
                        layers,
                        n_heads: config.num_attention_heads as int,
                        head_dim: (config.hidden_size / config.num_attention_heads) as int,
                        encoder_ln,
                        lm_head,
                    },
                ),
                (Err(e), _, _) => Err(e),
                (_, Err(e), _) => Err(e),
                (_, _, Err(e)) => Err(e),
            }
        },
    }
}

impl Checkpoint {
    /// Reads the weights of a model from the tensors of a checkpoint.
    pub fn load(tensors: &StringHashMap<RawTensor>, config: ModelConfig) -> (r: Result<
        Checkpoint,
        LoadError,
    >)
        ensures
            outcome(r) == checkpoint_of(tensors@, config),
            r matches Ok(model) ==> model@.pos_conv.fits(model.config.hidden_size as int),
    {
        let conv_layers = match get_convs(
            tensors,
            config.conv_stride.as_slice(),
            config.conv_dim.len(),
        ) {
            Ok(part) => part,
            Err(e) => return Err(e),
        };
        let feat_proj_ln = match LayerNorm::from_map(
            tensors,
            "wav2vec2.feature_projection.layer_norm",
        ) {
            Ok(part) => part,
            Err(e) => return Err(e),
        };
        let feat_proj = match Linear::from_map(tensors, "wav2vec2.feature_projection.projection") {
            Ok(part) => part,
            Err(e) => return Err(e),
        };
        let pos_conv = match PosConv::from_map(
            tensors,
            config.hidden_size,
            config.num_conv_pos_embeddings,
            config.num_conv_pos_embedding_groups,
        ) {
            Ok(part) => part,
            Err(e) => return Err(e),
        };
        if config.num_attention_heads == 0 {
            return Err(LoadError::NoHeads);
        }
        let layers = match get_encoder_layers(tensors, config.num_hidden_layers) {
            Ok(part) => part,
            Err(e) => return Err(e),
        };
        let encoder_ln = match LayerNorm::from_map(tensors, "wav2vec2.encoder.layer_norm") {
            Ok(part) => part,
            Err(e) => return Err(e),
        };
        let lm_head = match Linear::from_map(tensors, "lm_head") {
            Ok(part) => part,
            Err(e) => return Err(e),
        };
        let n_heads = config.num_attention_heads;
        let head_dim = config.head_dim();
        Ok(
            Checkpoint {
                config,
                conv_layers,
                feat_proj_ln,
                feat_proj,
                pos_conv,
                layers,
                n_heads,
                head_dim,
                encoder_ln,
                lm_head,
            },
        )
    }
}

/// The layers of an encoder that is read are all there, each read under its own
/// number; where one cannot be read, the first such gives the error.
pub proof fn law_every_encoder_layer_is_read(tensors: Tensors, n: int)
    requires
        n >= 0,
    ensures
        match encoder_layers(tensors, n) {
            Ok(layers) => layers.len() == n && forall|i: int|
                0 <= i < n ==> encoder_layer(tensors, i) == Ok::<EncoderLayerView, LoadErrorView>(
                    #[trigger] layers[i],
                ),
            Err(e) => exists|i: int|
                0 <= i < n && #[trigger] encoder_layer(tensors, i) == Err::<
                    EncoderLayerView,
                    LoadErrorView,
                >(e) && forall|k: int| 0 <= k < i ==> #[trigger] encoder_layer(tensors, k) is Ok,
        },
    decreases n,
{
    if n > 0 {
        law_every_encoder_layer_is_read(tensors, n - 1);
        if let Ok(before) = encoder_layers(tensors, n - 1) {
            assert forall|k: int| 0 <= k < n - 1 implies #[trigger] encoder_layer(
                tensors,
                k,
            ) is Ok by {
                assert(encoder_layer(tensors, k) == Ok::<EncoderLayerView, LoadErrorView>(
                    before[k],
                ));
            }
        }
    }
}

/// The convolutions that are read are all there, each read under its own number;
/// where one cannot be read, the first such gives the error.
pub proof fn law_every_conv_is_read(tensors: Tensors, strides: Seq<usize>, n: int)
    requires
        n >= 0,
    ensures
        match convs(tensors, strides, n) {
            Ok(layers) => layers.len() == n && forall|i: int|
                0 <= i < n ==> conv(tensors, strides, i) == Ok::<Conv1dLayerView, LoadErrorView>(
                    #[trigger] layers[i],
                ),
            Err(e) => exists|i: int|
                0 <= i < n && #[trigger] conv(tensors, strides, i) == Err::<
                    Conv1dLayerView,
                    LoadErrorView,
                >(e) && forall|k: int| 0 <= k < i ==> #[trigger] conv(tensors, strides, k) is Ok,
        },
    decreases n,
{
    if n > 0 {
        law_every_conv_is_read(tensors, strides, n - 1);
        if let Ok(before) = convs(tensors, strides, n - 1) {
            assert forall|k: int| 0 <= k < n - 1 implies #[trigger] conv(
                tensors,
                strides,
                k,
            ) is Ok by {
                assert(conv(tensors, strides, k) == Ok::<Conv1dLayerView, LoadErrorView>(
                    before[k],
                ));
            }
        }
    }
}

/// No two layers are read under one name.
pub proof fn law_layers_have_their_own_names(i: int, j: int)
    requires
        0 <= i,
        0 <= j,
        i != j,
    ensures
        encoder_prefix(i) != encoder_prefix(j),
        conv_prefix(i) != conv_prefix(j),
{
    let a = "wav2vec2.encoder.layers."@;
    let b = "wav2vec2.feature_extractor.conv_layers."@;
    law_numeral_round_trip(i as nat);
    law_numeral_round_trip(j as nat);
    assert(encoder_prefix(i).skip(a.len() as int) =~= numeral(i as nat));
    assert(encoder_prefix(j).skip(a.len() as int) =~= numeral(j as nat));
    assert(conv_prefix(i).skip(b.len() as int) =~= numeral(i as nat));
    assert(conv_prefix(j).skip(b.len() as int) =~= numeral(j as nat));
}

/// A linear layer is read exactly where its weight is a matrix of decoded
/// elements, with a bias for each row; it holds the elements of the two tensors,
/// and the sizes of the matrix.
pub proof fn law_linear_is_its_tensors(tensors: Tensors, prefix: Seq<char>)
    ensures
        ({
            let (w, b) = (prefix + ".weight"@, prefix + ".bias"@);
            let shape = tensors[w].shape@;
            let weights = decoded(tensors[w].dtype, bytes_of(tensors[w].data));
            let biases = decoded(tensors[b].dtype, bytes_of(tensors[b].data));
            &&& linear(tensors, prefix) is Ok <==> {
                &&& tensors.contains_key(w)
                &&& tensors.contains_key(b)
                &&& shape.len() == 2
                &&& weights matches Some(d) && d.len() == shape[0] * shape[1]
                &&& biases matches Some(d) && d.len() == shape[0]
            }
            &&& linear(tensors, prefix) matches Ok(v) ==> weights == Some(v.w) && biases == Some(v.b)
                && v.out == shape[0] && v.inn == shape[1]
            &&& !tensors.contains_key(w) ==> linear(tensors, prefix) == Err::<
                LinearView,
                LoadErrorView,
            >(LoadErrorView::Missing { name: w })
            &&& tensors.contains_key(w) && !tensors.contains_key(b) ==> linear(tensors, prefix)
                == Err::<LinearView, LoadErrorView>(LoadErrorView::Missing { name: b })
        }),
{
}

/// A normalisation is read exactly where its two tensors are there and decoded,
/// and holds their elements.
pub proof fn law_norm_is_its_tensors(tensors: Tensors, prefix: Seq<char>)
    ensures
        ({
            let (w, b) = (prefix + ".weight"@, prefix + ".bias"@);
            let weights = decoded(tensors[w].dtype, bytes_of(tensors[w].data));
            let biases = decoded(tensors[b].dtype, bytes_of(tensors[b].data));
            &&& layer_norm(tensors, prefix) is Ok <==> tensors.contains_key(w)
                && tensors.contains_key(b) && weights is Some && biases is Some
            &&& layer_norm(tensors, prefix) matches Ok(v) ==> weights == Some(v.w) && biases == Some(
                v.b,
            )
        }),
{
}

/// A convolution is read exactly where its weight has three dimensions, it has a
/// bias and a stride, all its elements are decoded, and its normalisation, if it
/// has one, is read; it holds the elements, the three sizes and the stride.
pub proof fn law_conv_is_its_tensors(tensors: Tensors, strides: Seq<usize>, i: int)
    requires
        i >= 0,
    ensures
        ({
            let prefix = "wav2vec2.feature_extractor.conv_layers."@ + numeral(i as nat);
            let (w, b) = (prefix + ".conv.weight"@, prefix + ".conv.bias"@);
            let norm = prefix + ".layer_norm"@;
            let normed = tensors.contains_key(prefix + ".layer_norm.weight"@);
            let shape = tensors[w].shape@;
            let weights = decoded(tensors[w].dtype, bytes_of(tensors[w].data));
            let biases = decoded(tensors[b].dtype, bytes_of(tensors[b].data));
            &&& conv(tensors, strides, i) is Ok <==> {
                &&& tensors.contains_key(w)
                &&& tensors.contains_key(b)
                &&& shape.len() == 3
                &&& weights is Some
                &&& biases is Some
                &&& i < strides.len()
                &&& normed ==> layer_norm(tensors, norm) is Ok
            }
            &&& conv(tensors, strides, i) matches Ok(v) ==> {
                &&& weights == Some(v.w)
                &&& biases == Some(v.b)
                &&& v.out_ch == shape[0]
                &&& v.in_ch == shape[1]
                &&& v.k == shape[2]
                &&& v.stride == strides[i]
                &&& v.ln is Some <==> normed
                &&& v.ln matches Some(ln) ==> layer_norm(tensors, norm) == Ok::<
                    LayerNormView,
                    LoadErrorView,
                >(ln)
            }
        }),
{
}

/// An encoder layer is read exactly where its eight parts are, and each part is
/// the one of its own name.
pub proof fn law_encoder_layer_is_its_parts(tensors: Tensors, i: int)
    requires
        i >= 0,
    ensures
        ({
            let p = "wav2vec2.encoder.layers."@ + numeral(i as nat);
            let parts_read = {
                &&& layer_norm(tensors, p + ".layer_norm"@) is Ok
                &&& linear(tensors, p + ".attention.q_proj"@) is Ok
                &&& linear(tensors, p + ".attention.k_proj"@) is Ok
                &&& linear(tensors, p + ".attention.v_proj"@) is Ok
                &&& linear(tensors, p + ".attention.out_proj"@) is Ok
                &&& layer_norm(tensors, p + ".final_layer_norm"@) is Ok
                &&& linear(tensors, p + ".feed_forward.intermediate_dense"@) is Ok
                &&& linear(tensors, p + ".feed_forward.output_dense"@) is Ok
            };
            &&& encoder_layer(tensors, i) is Ok <==> parts_read
            &&& encoder_layer(tensors, i) matches Ok(v) ==> {
                &&& layer_norm(tensors, p + ".layer_norm"@)->Ok_0 == v.ln_attn
                &&& linear(tensors, p + ".attention.q_proj"@)->Ok_0 == v.q
                &&& linear(tensors, p + ".attention.k_proj"@)->Ok_0 == v.k
                &&& linear(tensors, p + ".attention.v_proj"@)->Ok_0 == v.v
                &&& linear(tensors, p + ".attention.out_proj"@)->Ok_0 == v.out
                &&& layer_norm(tensors, p + ".final_layer_norm"@)->Ok_0 == v.ln_ff
                &&& linear(tensors, p + ".feed_forward.intermediate_dense"@)->Ok_0 == v.ff_inter
                &&& linear(tensors, p + ".feed_forward.output_dense"@)->Ok_0 == v.ff_out
            }
        }),
{
}

/// The parts of an encoder layer are read in a fixed order, and the first that
/// cannot be read gives the error: `errors` holds what is wrong with each part.
pub proof fn law_first_bad_part_speaks(
    tensors: Tensors,
    i: int,
    errors: Seq<Option<LoadErrorView>>,
    k: int,
)
    requires
        i >= 0,
        ({
            let p = "wav2vec2.encoder.layers."@ + numeral(i as nat);
            errors == seq![
                error_of(layer_norm(tensors, p + ".layer_norm"@)),
                error_of(linear(tensors, p + ".attention.q_proj"@)),
                error_of(linear(tensors, p + ".attention.k_proj"@)),
                error_of(linear(tensors, p + ".attention.v_proj"@)),
                error_of(linear(tensors, p + ".attention.out_proj"@)),
                error_of(layer_norm(tensors, p + ".final_layer_norm"@)),
                error_of(linear(tensors, p + ".feed_forward.intermediate_dense"@)),
                error_of(linear(tensors, p + ".feed_forward.output_dense"@)),
            ]
        }),
        0 <= k < 8,
        errors[k] is Some,
        forall|j: int| 0 <= j < k ==> #[trigger] errors[j] is None,
    ensures
        encoder_layer(tensors, i) matches Err(e) && errors[k] == Some(e),
{
    assert(errors[0] is None || k == 0);
    assert(errors[1] is None || k <= 1);
    assert(errors[2] is None || k <= 2);
    assert(errors[3] is None || k <= 3);
    assert(errors[4] is None || k <= 4);
    assert(errors[5] is None || k <= 5);
    assert(errors[6] is None || k <= 6);
}

/// What is wrong with a part, if anything is.
pub open spec fn error_of<T>(part: Result<T, LoadErrorView>) -> Option<LoadErrorView> {
    match part {
        Ok(_) => None,
        Err(e) => Some(e),
    }
}

/// A model that is read holds every part of its configuration: as many
/// convolutions as the configuration has sizes for, as many encoder layers as it
/// asks for, each the one of its number, and the parts around them, each the one
/// of its name.
pub proof fn law_model_holds_every_part(tensors: Tensors, config: ModelConfig, v: CheckpointView)
    requires
        checkpoint_of(tensors, config) == Ok::<CheckpointView, LoadErrorView>(v),
    ensures
        v.config == config,
        config.num_attention_heads > 0,
        v.n_heads == config.num_attention_heads,
        v.head_dim * v.n_heads <= config.hidden_size,
        config.hidden_size < (v.head_dim + 1) * v.n_heads,
        v.conv_layers.len() == config.conv_dim@.len(),
        forall|i: int|
            0 <= i < v.conv_layers.len() ==> conv(tensors, config.conv_stride@, i) == Ok::<
                Conv1dLayerView,
                LoadErrorView,
            >(#[trigger] v.conv_layers[i]),
        v.layers.len() == config.num_hidden_layers,
        forall|i: int|
            0 <= i < v.layers.len() ==> encoder_layer(tensors, i) == Ok::<
                EncoderLayerView,
                LoadErrorView,
            >(#[trigger] v.layers[i]),
        layer_norm(tensors, "wav2vec2.feature_projection.layer_norm"@) == Ok::<
            LayerNormView,
            LoadErrorView,
        >(v.feat_proj_ln),
        linear(tensors, "wav2vec2.feature_projection.projection"@) == Ok::<
            LinearView,
            LoadErrorView,
        >(v.feat_proj),
        layer_norm(tensors, "wav2vec2.encoder.layer_norm"@) == Ok::<LayerNormView, LoadErrorView>(
            v.encoder_ln,
        ),
        linear(tensors, "lm_head"@) == Ok::<LinearView, LoadErrorView>(v.lm_head),
        pos_conv(
            tensors,
            config.hidden_size as int,
            config.num_conv_pos_embeddings as int,
            config.num_conv_pos_embedding_groups as int,
        ) == Ok::<PosConvView, LoadErrorView>(v.pos_conv),
{
    law_every_conv_is_read(tensors, config.conv_stride@, config.conv_dim@.len() as int);
    law_every_encoder_layer_is_read(tensors, config.num_hidden_layers as int);
    let (h, n) = (config.hidden_size as int, config.num_attention_heads as int);
    vstd::arithmetic::div_mod::lemma_fundamental_div_mod(h, n);
    assert((h / n) * n == n * (h / n)) by (nonlinear_arith);
    assert((h / n + 1) * n == (h / n) * n + n) by (nonlinear_arith);
}

/// The parts of a model are read in a fixed order, and the first that cannot be
/// read gives the error: `errors` holds what is wrong with each part.  A model is
/// read exactly where nothing is wrong with any.
pub proof fn law_first_bad_part_of_model_speaks(
    tensors: Tensors,
    config: ModelConfig,
    errors: Seq<Option<LoadErrorView>>,
)
    requires
        errors == seq![
            error_of(convs(tensors, config.conv_stride@, config.conv_dim@.len() as int)),
            error_of(layer_norm(tensors, "wav2vec2.feature_projection.layer_norm"@)),
            error_of(linear(tensors, "wav2vec2.feature_projection.projection"@)),
            error_of(
                pos_conv(
                    tensors,
                    config.hidden_size as int,
                    config.num_conv_pos_embeddings as int,
                    config.num_conv_pos_embedding_groups as int,
                ),
            ),
            (if config.num_attention_heads == 0 {
                Some(LoadErrorView::NoHeads)
            } else {
                None
            }),
            error_of(encoder_layers(tensors, config.num_hidden_layers as int)),
            error_of(layer_norm(tensors, "wav2vec2.encoder.layer_norm"@)),
            error_of(linear(tensors, "lm_head"@)),
        ],
    ensures
        checkpoint_of(tensors, config) is Ok <==> forall|k: int|
            0 <= k < 8 ==> #[trigger] errors[k] is None,
        forall|k: int|
            0 <= k < 8 && (#[trigger] errors[k]) is Some && (forall|j: int|
                0 <= j < k ==> #[trigger] errors[j] is None) ==> checkpoint_of(tensors, config)
                == Err::<CheckpointView, LoadErrorView>(errors[k]->0),
{
    assert(errors[0] is None || errors[0] is Some);
    assert(errors[1] is None || errors[1] is Some);
    assert(errors[2] is None || errors[2] is Some);
    assert(errors[3] is None || errors[3] is Some);
    assert(errors[4] is None || errors[4] is Some);
    assert(errors[5] is None || errors[5] is Some);
    assert(errors[6] is None || errors[6] is Some);
    assert(errors[7] is None || errors[7] is Some);
}

/// The positional convolution is read exactly where its three tensors are there
/// and decoded, there is a group, there are as many directions as the sizes ask
/// for, and one gain or enough; it holds their elements and the sizes.
pub proof fn law_pos_conv_is_its_tensors(tensors: Tensors, hidden: int, k: int, groups: int)
    requires
        groups >= 0,
    ensures
        ({
            let g = "wav2vec2.encoder.pos_conv_embed.conv.parametrizations.weight.original0"@;
            let d = "wav2vec2.encoder.pos_conv_embed.conv.parametrizations.weight.original1"@;
            let b = "wav2vec2.encoder.pos_conv_embed.conv.bias"@;
            let gains = decoded(tensors[g].dtype, bytes_of(tensors[g].data));
            let directions = decoded(tensors[d].dtype, bytes_of(tensors[d].data));
            let bias = decoded(tensors[b].dtype, bytes_of(tensors[b].data));
            &&& pos_conv(tensors, hidden, k, groups) is Ok <==> {
                &&& tensors.contains_key(g) && gains is Some
                &&& tensors.contains_key(d) && directions is Some
                &&& tensors.contains_key(b) && bias is Some
                &&& groups > 0
                &&& directions->0.len() == hidden * (hidden / groups) * k
                &&& gains->0.len() == 1 || gains->0.len() >= k
            }
            &&& pos_conv(tensors, hidden, k, groups) matches Ok(v) ==> {
                &&& gains == Some(v.gains)
                &&& directions == Some(v.directions)
                &&& bias == Some(v.bias)
                &&& v.k == k
                &&& v.groups == groups
                &&& v.group_width == hidden / groups
            }
        }),
{
}

} // verus!
