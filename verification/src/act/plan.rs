//! What one forward pass does, step by step, and where in the workspace it does it.
//!
//! The network is fixed: one ResNet18 for both cameras, tokens of 512 numbers, attention with
//! eight heads, four encoder layers, one decoder layer, and a head for one hundred actions. A
//! pass is first laid out as a list of steps, each with its buffers and weights. Whoever runs the
//! steps does the arithmetic.
use crate::act::safetensors::SafeTensors;
use crate::act::safetensors::Tensor;
use crate::act::Error;
use crate::act::KernelProvider;
use vstd::prelude::*;

verus! {

pub const IMAGE_HEIGHT: usize = 360;

pub const IMAGE_WIDTH: usize = 640;

pub const IMAGE_CHANNELS: usize = 3;

pub const IMAGE_BYTES: usize = 691_200;

pub const STATE_DIM: usize = 6;

pub const ACTION_DIM: usize = 6;

pub const ACTION_STEPS: usize = 100;

pub const MODEL_DIM: usize = 512;

pub const HEADS: usize = 8;

pub const HEAD_DIM: usize = 64;

pub const FF_DIM: usize = 3200;

pub const FEATURE_HEIGHT: usize = 12;

pub const FEATURE_WIDTH: usize = 20;

pub const IMAGE_TOKENS: usize = 240;

/// Two tokens for the latent and the state, and those of two images.
pub const ENCODER_TOKENS: usize = 482;

/// The floats of the first convolution's output: 180 by 320 pixels with 64 channels.
pub const STEM_FLOATS: usize = 3_686_400;

/// The floats of the largest features behind it: 90 by 160 pixels with 64 channels.
pub const FEATURE_FLOATS: usize = 921_600;

/// The floats of the largest unfolded image: 180 by 320 windows of 7 by 7 pixels with 3 channels.
pub const UNFOLDED_FLOATS: usize = 8_467_200;

/// The floats that one image needs on its way to its features.
pub const CAMERA_FLOATS: usize = 15_609_600;

/// The floats that a workspace must have: 68 MiB.
pub const WORKSPACE_FLOATS: usize = 17_825_792;

/// A stage of a forward pass that is done.
#[derive(Clone, Copy, Debug, PartialEq, Eq, Structural)]
pub enum InferenceStage {
    InputPrepared,
    CameraNormalized { camera: u8 },
    CameraStem { camera: u8 },
    CameraBlock { camera: u8, block: u8 },
    CameraProjected { camera: u8 },
    EncoderLayer { layer: u8 },
    Decoder,
    ActionHead,
}

/// Floats of the workspace.
#[derive(Clone, Copy, Debug, PartialEq, Eq, Structural)]
pub struct Buffer {
    pub offset: usize,
    pub len: usize,
}

/// Floats of the model file: the byte at which they start, and how many they are.
#[derive(Clone, Copy, Debug, PartialEq, Eq, Structural)]
pub struct Weight {
    pub offset: usize,
    pub len: usize,
}

/// What a linear layer reads or writes: a buffer, or the normalized state of the robot, or the
/// actions.
#[derive(Clone, Copy, Debug, PartialEq, Eq, Structural)]
pub enum Operand {
    Buffer(Buffer),
    State,
    Actions,
}

/// The shape of a convolution over pixels with their channels side by side.
#[derive(Clone, Copy, Debug, PartialEq, Eq, Structural)]
pub struct Conv {
    pub input_h: usize,
    pub input_w: usize,
    pub input_c: usize,
    pub output_c: usize,
    pub kernel: usize,
    pub stride: usize,
    pub padding: usize,
}

/// A block of two convolutions around which the input is added back in.
#[derive(Clone, Copy, Debug, PartialEq, Eq)]
pub struct BlockSpec {
    pub name: &'static str,
    pub in_channels: usize,
    pub out_channels: usize,
    pub stride: usize,
    pub downsample: bool,
}

#[derive(Clone, Copy, Debug, PartialEq, Eq, Structural)]
pub enum Step {
    CopyWeight { weight: Weight, to: Buffer },
    Zero { to: Buffer },
    NormalizeImage { camera: u8, to: Buffer },
    Conv { conv: Conv, input: Buffer, weight: Weight, output: Buffer, im2col: Buffer },
    BatchNorm {
        buffer: Buffer,
        pixels: usize,
        channels: usize,
        weight: Weight,
        bias: Weight,
        mean: Weight,
        variance: Weight,
        relu: bool,
    },
    MaxPool { input: Buffer, input_h: usize, input_w: usize, channels: usize, output: Buffer },
    AddRelu { output: Buffer, shortcut: Buffer },
    Linear {
        input: Operand,
        rows: usize,
        input_dim: usize,
        weight: Weight,
        bias: Weight,
        output: Operand,
        output_dim: usize,
    },
    LinearSum {
        input: Buffer,
        position: Buffer,
        rows: usize,
        weight: Weight,
        bias: Weight,
        output: Buffer,
    },
    Attention {
        query: Buffer,
        key: Buffer,
        value: Buffer,
        query_rows: usize,
        key_rows: usize,
        scores: Buffer,
        output: Buffer,
    },
    AddLayerNorm { to: Buffer, addition: Buffer, rows: usize, weight: Weight, bias: Weight },
    LayerNorm { buffer: Buffer, rows: usize, weight: Weight, bias: Weight },
    Relu { buffer: Buffer },
    Position { to: Buffer },
    DenormalizeActions,
    Done(InferenceStage),
}

pub open spec fn text(s: &str) -> Seq<u8> {
    crate::act::safetensors::text(s)
}

impl Buffer {
    /// `len` floats of it, from `offset` on.
    pub open spec fn piece(self, offset: int, len: int) -> Buffer {
        Buffer { offset: (self.offset + offset) as usize, len: len as usize }
    }

    /// It ends at an address.
    pub open spec fn fits(self) -> bool {
        self.offset + self.len <= usize::MAX
    }

    /// It lies among the first `len` floats.
    pub open spec fn inside(self, len: int) -> bool {
        self.offset + self.len <= len
    }

    /// They have no float in common.
    pub open spec fn apart(self, other: Buffer) -> bool {
        self.offset + self.len <= other.offset || other.offset + other.len <= self.offset
    }

    pub fn sub(self, offset: usize, len: usize) -> (r: Buffer)
        requires
            offset + len <= self.len,
            self.fits(),
        ensures
            r == self.piece(offset as int, len as int),
            r.offset == self.offset + offset,
            r.len == len,
    {
        Buffer { offset: self.offset + offset, len }
    }
}

impl Weight {
    /// `len` floats of it, from float `offset` on.
    pub open spec fn piece(self, offset: int, len: int) -> Weight {
        Weight { offset: (self.offset + 4 * offset) as usize, len: len as usize }
    }

    pub open spec fn fits(self) -> bool {
        self.offset + 4 * self.len <= usize::MAX
    }

    /// It lies in a file of `len` bytes, and each of its floats is aligned if the file is at
    /// `address`.
    pub open spec fn inside(self, len: int, address: int) -> bool {
        self.offset + 4 * self.len <= len && (address + self.offset) % 4 == 0
    }

    pub fn sub(self, offset: usize, len: usize) -> (r: Weight)
        requires
            offset + len <= self.len,
            self.fits(),
        ensures
            r == self.piece(offset as int, len as int),
            r.offset == self.offset + 4 * offset,
            r.len == len,
    {
        Weight { offset: self.offset + 4 * offset, len }
    }
}

impl Conv {
    pub open spec fn output_h(self) -> int {
        (self.input_h + 2 * self.padding - self.kernel) / (self.stride as int) + 1
    }

    pub open spec fn output_w(self) -> int {
        (self.input_w + 2 * self.padding - self.kernel) / (self.stride as int) + 1
    }

    pub open spec fn rows(self) -> int {
        self.output_h() * self.output_w()
    }

    pub open spec fn columns(self) -> int {
        self.input_c * self.kernel * self.kernel
    }

    /// The kernel fits the padded image.
    pub open spec fn wf(self) -> bool {
        &&& self.stride > 0
        &&& self.kernel <= self.input_h + 2 * self.padding
        &&& self.kernel <= self.input_w + 2 * self.padding
    }
}

impl Operand {
    /// It is a buffer of at least `least` floats, or none at all.
    pub open spec fn holds(self, least: int, len: int) -> bool {
        self matches Operand::Buffer(buffer) ==> buffer.len >= least && buffer.inside(len)
    }

    pub open spec fn apart(self, other: Operand) -> bool {
        match (self, other) {
            (Operand::Buffer(a), Operand::Buffer(b)) => a.apart(b),
            _ => true,
        }
    }
}

/// A step stays inside a workspace of `len` floats and a file of `file_len` bytes, its buffers
/// and weights are as long as it needs, and what it writes is apart from what it reads.
pub open spec fn step_fits(step: Step, len: int, file_len: int, address: int) -> bool {
    let w = |weight: Weight, n: int| weight.len == n && weight.inside(file_len, address);
    match step {
        Step::CopyWeight { weight, to } => w(weight, to.len as int) && to.inside(len),
        Step::Zero { to } => to.inside(len),
        Step::NormalizeImage { camera, to } => camera < 2 && to.len == IMAGE_BYTES && to.inside(len),
        Step::Conv { conv, input, weight, output, im2col } => {
            &&& conv.wf()
            &&& input.len >= conv.input_h * conv.input_w * conv.input_c
            &&& w(weight, conv.output_c * conv.columns())
            &&& output.len == conv.rows() * conv.output_c
            &&& im2col.len >= conv.rows() * conv.columns()
            &&& input.inside(len) && output.inside(len) && im2col.inside(len)
            &&& input.apart(output) && input.apart(im2col) && output.apart(im2col)
        },
        Step::BatchNorm { buffer, pixels, channels, weight, bias, mean, variance, relu } => {
            &&& buffer.len == pixels * channels
            &&& buffer.inside(len)
            &&& w(weight, channels as int)
            &&& w(bias, channels as int)
            &&& w(mean, channels as int)
            &&& w(variance, channels as int)
        },
        Step::MaxPool { input, input_h, input_w, channels, output } => {
            &&& input.len == input_h * input_w * channels
            &&& output.len == ((input_h + 1) / 2) * ((input_w + 1) / 2) * channels
            &&& input.inside(len) && output.inside(len) && input.apart(output)
        },
        Step::AddRelu { output, shortcut } => {
            output.len == shortcut.len && output.inside(len) && shortcut.inside(len)
                && output.apart(shortcut)
        },
        Step::Linear { input, rows, input_dim, weight, bias, output, output_dim } => {
            &&& w(weight, output_dim * input_dim)
            &&& w(bias, output_dim as int)
            &&& input.holds(rows * input_dim, len)
            &&& output.holds(rows * output_dim, len)
            &&& input.apart(output)
            &&& input is State ==> rows == 1 && input_dim == STATE_DIM
            &&& input !is Actions && output !is State
            &&& output is Actions ==> rows == ACTION_STEPS && output_dim == ACTION_DIM
        },
        Step::LinearSum { input, position, rows, weight, bias, output } => {
            &&& w(weight, MODEL_DIM * MODEL_DIM)
            &&& w(bias, MODEL_DIM as int)
            &&& input.len >= rows * MODEL_DIM && position.len >= rows * MODEL_DIM
            &&& output.len == rows * MODEL_DIM
            &&& input.inside(len) && position.inside(len) && output.inside(len)
            &&& input.apart(output) && position.apart(output)
        },
        Step::Attention { query, key, value, query_rows, key_rows, scores, output } => {
            &&& query.len == query_rows * MODEL_DIM && output.len == query_rows * MODEL_DIM
            &&& key.len == key_rows * MODEL_DIM && value.len == key_rows * MODEL_DIM
            &&& scores.len == key_rows
            &&& query.inside(len) && key.inside(len) && value.inside(len)
            &&& scores.inside(len) && output.inside(len)
            &&& output.apart(query) && output.apart(key) && output.apart(value)
            &&& scores.apart(query) && scores.apart(key) && scores.apart(value)
            &&& scores.apart(output)
        },
        Step::AddLayerNorm { to, addition, rows, weight, bias } => {
            &&& to.len == rows * MODEL_DIM && addition.len == to.len
            &&& to.inside(len) && addition.inside(len) && to.apart(addition)
            &&& w(weight, MODEL_DIM as int) && w(bias, MODEL_DIM as int)
        },
        Step::LayerNorm { buffer, rows, weight, bias } => {
            &&& buffer.len == rows * MODEL_DIM && buffer.inside(len)
            &&& w(weight, MODEL_DIM as int) && w(bias, MODEL_DIM as int)
        },
        Step::Relu { buffer } => buffer.inside(len),
        Step::Position { to } => to.len == IMAGE_TOKENS * MODEL_DIM && to.inside(len),
        Step::DenormalizeActions => true,
        Step::Done(_) => true,
    }
}

/// A pass as far as it is laid out: the model, how much of the workspace is taken, the steps, and
/// what went wrong, if anything did.
#[verifier::ext_equal]
pub struct PlanView {
    pub file: Seq<u8>,
    pub address: int,
    pub provider: KernelProvider,
    pub len: int,
    pub top: int,
    pub steps: Seq<Step>,
    pub error: Option<Error>,
}

/// The weights of a name and a shape.
pub open spec fn found(file: Seq<u8>, address: int, name: Seq<u8>, shape: Seq<int>) -> Result<
    Weight,
    Error,
> {
    match crate::act::safetensors::tensor_in(file, name) {
        Err(error) => Err(error),
        Ok(tensor) => if tensor.shape != shape {
            Err(Error::ShapeMismatch)
        } else if (address + tensor.start) % 4 != 0 {
            Err(Error::InvalidSafetensors)
        } else {
            Ok(
                Weight {
                    offset: tensor.start as usize,
                    len: ((tensor.end - tensor.start) / 4) as usize,
                },
            )
        },
    }
}

pub open spec fn volume(shape: Seq<int>) -> int
    decreases shape.len(),
{
    if shape.len() == 0 {
        1
    } else {
        volume(shape.drop_last()) * shape.last()
    }
}

/// Nothing happens once something went wrong.
impl PlanView {
    pub open spec fn failed(self, error: Error) -> PlanView {
        if self.error is Some {
            self
        } else {
            PlanView { error: Some(error), ..self }
        }
    }

    pub open spec fn push(self, step: Step) -> PlanView {
        if self.error is Some {
            self
        } else {
            PlanView { steps: self.steps.push(step), ..self }
        }
    }

    /// Takes the next `n` floats of the workspace.
    pub open spec fn take_floats(self, n: int) -> (PlanView, Buffer) {
        if self.error is Some || self.top + n > self.len {
            (self.failed(Error::WorkspaceTooSmall), Buffer { offset: 0, len: n as usize })
        } else {
            (
                PlanView { top: self.top + n, ..self },
                Buffer { offset: self.top as usize, len: n as usize },
            )
        }
    }

    pub open spec fn reset(self, mark: int) -> PlanView {
        PlanView { top: mark, ..self }
    }

    pub open spec fn weight(self, name: Seq<u8>, shape: Seq<int>) -> (PlanView, Weight) {
        let none = Weight { offset: 0, len: volume(shape) as usize };
        if self.error is Some {
            (self, none)
        } else {
            match found(self.file, self.address, name, shape) {
                Err(error) => (self.failed(error), none),
                Ok(weight) => (self, weight),
            }
        }
    }
}

pub struct Planner<'m, 'a> {
    pub weights: &'m SafeTensors<'a>,
    pub address: usize,
    pub provider: KernelProvider,
    pub len: usize,
    pub top: usize,
    pub steps: Vec<Step>,
    pub error: Option<Error>,
}

impl<'m, 'a> View for Planner<'m, 'a> {
    type V = PlanView;

    open spec fn view(&self) -> PlanView {
        PlanView {
            file: self.weights.file@,
            address: self.address as int,
            provider: self.provider,
            len: self.len as int,
            top: self.top as int,
            steps: self.steps@,
            error: self.error,
        }
    }
}

/// The name that begins with `prefix` and goes on with `more`.
fn name_of(prefix: &[u8], more: &str) -> (r: Vec<u8>)
    ensures
        r@ == prefix@ + text(more),
{
    let mut r: Vec<u8> = Vec::new();
    r.extend_from_slice(prefix);
    assert(r@ =~= prefix@);
    r.extend_from_slice(more.as_bytes());
    assert(r@ =~= prefix@ + text(more));
    r
}

pub(crate) proof fn lemma_volume(shape: Seq<int>)
    requires
        shape.len() <= 4,
        crate::act::safetensors::product(shape, shape.len() as int) is Some,
    ensures
        crate::act::safetensors::product(shape, shape.len() as int) == Some(volume(shape)),
{
    lemma_volume_of(shape, shape.len() as int);
    assert(shape.take(shape.len() as int) =~= shape);
}

proof fn lemma_volume_of(shape: Seq<int>, k: int)
    requires
        0 <= k <= shape.len(),
        crate::act::safetensors::product(shape, k) is Some,
    ensures
        crate::act::safetensors::product(shape, k) == Some(volume(shape.take(k))),
    decreases k,
{
    if k > 0 {
        lemma_volume_of(shape, k - 1);
        assert(shape.take(k).drop_last() =~= shape.take(k - 1));
    } else {
        assert(shape.take(0).len() == 0);
    }
}

impl<'m, 'a> Planner<'m, 'a> {
    /// The workspace is not overdrawn, and every step fits.
    pub open spec fn wf(&self) -> bool {
        &&& self.weights.wf()
        &&& self.top <= self.len
        &&& forall|i: int|
            0 <= i < self.steps@.len() ==> step_fits(
                #[trigger] self.steps@[i],
                self.len as int,
                self.weights.file@.len() as int,
                self.address as int,
            )
    }

    pub open spec fn fits(&self, step: Step) -> bool {
        step_fits(step, self.len as int, self.weights.file@.len() as int, self.address as int)
    }

    fn fail(&mut self, error: Error)
        requires
            old(self).wf(),
        ensures
            final(self)@ == old(self)@.failed(error),
            final(self).wf(),
            final(self).error is Some,
    {
        if self.error.is_none() {
            self.error = Some(error);
        }
    }

    fn push(&mut self, step: Step)
        requires
            old(self).wf(),
            old(self).error is None ==> old(self).fits(step),
        ensures
            final(self)@ == old(self)@.push(step),
            final(self).wf(),
    {
        if self.error.is_none() {
            self.steps.push(step);
        }
    }

    fn take_floats(&mut self, n: usize) -> (r: Buffer)
        requires
            old(self).wf(),
        ensures
            (final(self)@, r) == old(self)@.take_floats(n as int),
            final(self).wf(),
            r.len == n,
            r.fits(),
            final(self).error is None ==> old(self).error is None && r.offset == old(self).top
                && final(self).top == old(self).top + n,
            final(self).top >= old(self).top,
    {
        if self.error.is_some() || n > self.len - self.top {
            self.fail(Error::WorkspaceTooSmall);
            return Buffer { offset: 0, len: n };
        }
        let r: Buffer = Buffer { offset: self.top, len: n };
        self.top = self.top + n;
        r
    }

    fn reset(&mut self, mark: usize)
        requires
            old(self).wf(),
            mark <= old(self).top,
        ensures
            final(self)@ == old(self)@.reset(mark as int),
            final(self).wf(),
    {
        self.top = mark;
    }

    /// The place of a tensor in the file, if it has the right shape and is aligned.
    fn place(&self, name: &[u8], rank: usize, shape: [usize; 4]) -> (r: Result<Weight, Error>)
        requires
            self.wf(),
            rank <= 4,
        ensures
            r == found(
                self@.file,
                self@.address,
                name@,
                shape@.take(rank as int).map_values(|n: usize| n as int),
            ),
            r matches Ok(weight) ==> weight.inside(
                self.weights.file@.len() as int,
                self.address as int,
            ) && weight.len == volume(
                shape@.take(rank as int).map_values(|n: usize| n as int),
            ),
            r matches Err(error) ==> error != Error::WorkspaceTooSmall,
    {
        proof {
            crate::act::safetensors::lemma_errors(self.weights.file@, name@);
        }
        let tensor: Tensor = match self.weights.tensor_named(name) {
            Err(error) => {
                return Err(error);
            },
            Ok(tensor) => tensor,
        };
        proof {
            crate::act::safetensors::law_tensor_inside_file(self.weights.file@, name@);
        }
        let ghost wanted = shape@.take(rank as int).map_values(|n: usize| n as int);
        if tensor.rank != rank {
            assert(tensor@.shape.len() != wanted.len());
            return Err(Error::ShapeMismatch);
        }
        let mut k: usize = 0;
        while k < rank
            invariant
                k <= rank <= 4,
                tensor.rank == rank,
                forall|j: int| 0 <= j < k ==> tensor.shape@[j] == shape@[j],
                wanted == shape@.take(rank as int).map_values(|n: usize| n as int),
                found(self@.file, self@.address, name@, wanted) == (if tensor@.shape != wanted {
                    Err::<Weight, Error>(Error::ShapeMismatch)
                } else {
                    found(self@.file, self@.address, name@, wanted)
                }),
            decreases rank - k,
        {
            if tensor.shape[k] != shape[k] {
                assert(tensor@.shape[k as int] != wanted[k as int]);
                return Err(Error::ShapeMismatch);
            }
            k = k + 1;
        }
        assert(tensor@.shape =~= wanted);
        proof {
            lemma_volume(tensor@.shape);
        }
        match tensor.f32_data(self.address) {
            Err(error) => Err(error),
            Ok(_) => Ok(Weight { offset: tensor.offset, len: tensor.element_count() }),
        }
    }
}


/// The blocks of the backbone, in order.
pub open spec fn block_at(i: int) -> BlockSpec {
    if i == 0 {
        BlockSpec {
            name: "layer1.0",
            in_channels: 64,
            out_channels: 64,
            stride: 1,
            downsample: false,
        }
    } else if i == 1 {
        BlockSpec {
            name: "layer1.1",
            in_channels: 64,
            out_channels: 64,
            stride: 1,
            downsample: false,
        }
    } else if i == 2 {
        BlockSpec {
            name: "layer2.0",
            in_channels: 64,
            out_channels: 128,
            stride: 2,
            downsample: true,
        }
    } else if i == 3 {
        BlockSpec {
            name: "layer2.1",
            in_channels: 128,
            out_channels: 128,
            stride: 1,
            downsample: false,
        }
    } else if i == 4 {
        BlockSpec {
            name: "layer3.0",
            in_channels: 128,
            out_channels: 256,
            stride: 2,
            downsample: true,
        }
    } else if i == 5 {
        BlockSpec {
            name: "layer3.1",
            in_channels: 256,
            out_channels: 256,
            stride: 1,
            downsample: false,
        }
    } else if i == 6 {
        BlockSpec {
            name: "layer4.0",
            in_channels: 256,
            out_channels: 512,
            stride: 2,
            downsample: true,
        }
    } else {
        BlockSpec {
            name: "layer4.1",
            in_channels: 512,
            out_channels: 512,
            stride: 1,
            downsample: false,
        }
    }
}

fn backbone_block(i: usize) -> (r: BlockSpec)
    ensures
        r == block_at(i as int),
{
    let name: &'static str = match i {
        0 => "layer1.0",
        1 => "layer1.1",
        2 => "layer2.0",
        3 => "layer2.1",
        4 => "layer3.0",
        5 => "layer3.1",
        6 => "layer4.0",
        _ => "layer4.1",
    };
    let (in_channels, out_channels): (usize, usize) = match i {
        0 | 1 => (64, 64),
        2 => (64, 128),
        3 => (128, 128),
        4 => (128, 256),
        5 => (256, 256),
        6 => (256, 512),
        _ => (512, 512),
    };
    let downsample: bool = i == 2 || i == 4 || i == 6;
    BlockSpec { name, in_channels, out_channels, stride: if downsample { 2 } else { 1 }, downsample }
}

/// `n` divided by `d`, rounded up.
pub open spec fn div_up(n: int, d: int) -> int {
    (n + d - 1) / d
}

/// The first two of three buffers that do not start where `input` does.
pub open spec fn free_pair(input: Buffer, a: Buffer, b: Buffer, c: Buffer) -> Option<
    (Buffer, Buffer),
> {
    let fa = a.offset != input.offset;
    let fb = b.offset != input.offset;
    let fc = c.offset != input.offset;
    if fa && fb {
        Some((a, b))
    } else if fa && fc {
        Some((a, c))
    } else if fb && fc {
        Some((b, c))
    } else {
        None
    }
}

impl BlockSpec {
    /// The sizes that its blocks have. Without a shortcut of its own a block keeps the shape.
    pub open spec fn wf(self) -> bool {
        &&& 1 <= self.in_channels <= 512
        &&& 1 <= self.out_channels <= 512
        &&& self.stride == 1 || self.stride == 2
        &&& !self.downsample ==> self.stride == 1 && self.in_channels == self.out_channels
    }

    pub open spec fn first(self, height: int, width: int) -> Conv {
        Conv {
            input_h: height as usize,
            input_w: width as usize,
            input_c: self.in_channels,
            output_c: self.out_channels,
            kernel: 3,
            stride: self.stride,
            padding: 1,
        }
    }

    pub open spec fn second(self, height: int, width: int) -> Conv {
        Conv {
            input_h: height as usize,
            input_w: width as usize,
            input_c: self.out_channels,
            output_c: self.out_channels,
            kernel: 3,
            stride: 1,
            padding: 1,
        }
    }

    pub open spec fn shortcut(self, height: int, width: int) -> Conv {
        Conv {
            input_h: height as usize,
            input_w: width as usize,
            input_c: self.in_channels,
            output_c: self.out_channels,
            kernel: 1,
            stride: self.stride,
            padding: 0,
        }
    }
}

impl PlanView {
    /// A large product goes to the accelerated kernels, which are not there.
    pub open spec fn linear(
        self,
        input: Operand,
        rows: int,
        input_dim: int,
        weight: Weight,
        bias: Weight,
        output: Operand,
        output_dim: int,
    ) -> PlanView {
        if self.provider == KernelProvider::AclNeon && rows >= 128 && (input_dim >= 1024
            || output_dim >= 1024) {
            self.failed(Error::AclProviderUnavailable)
        } else {
            self.push(
                Step::Linear {
                    input,
                    rows: rows as usize,
                    input_dim: input_dim as usize,
                    weight,
                    bias,
                    output,
                    output_dim: output_dim as usize,
                },
            )
        }
    }

    pub open spec fn conv2d(
        self,
        conv: Conv,
        input: Buffer,
        weight: Weight,
        output: Buffer,
        im2col: Buffer,
    ) -> PlanView {
        if self.provider == KernelProvider::AclNeon {
            self.failed(Error::AclProviderUnavailable)
        } else {
            self.push(Step::Conv { conv, input, weight, output, im2col })
        }
    }

    pub open spec fn batch_norm(
        self,
        buffer: Buffer,
        pixels: int,
        channels: int,
        prefix: Seq<u8>,
        relu: bool,
    ) -> PlanView {
        let (p, weight) = self.weight(prefix + text(".weight"), seq![channels]);
        let (p, bias) = p.weight(prefix + text(".bias"), seq![channels]);
        let (p, mean) = p.weight(prefix + text(".running_mean"), seq![channels]);
        let (p, variance) = p.weight(prefix + text(".running_var"), seq![channels]);
        p.push(
            Step::BatchNorm {
                buffer,
                pixels: pixels as usize,
                channels: channels as usize,
                weight,
                bias,
                mean,
                variance,
                relu,
            },
        )
    }

    /// A convolution whose weights have one name, and a normalization whose weights begin with
    /// another.
    #[verifier::opaque]
    pub open spec fn conv_norm(
        self,
        conv: Conv,
        input: Buffer,
        weight_name: Seq<u8>,
        norm_name: Seq<u8>,
        output: Buffer,
        im2col: Buffer,
        relu: bool,
    ) -> PlanView {
        let (p, weight) = self.weight(
            weight_name,
            seq![
                conv.output_c as int,
                conv.input_c as int,
                conv.kernel as int,
                conv.kernel as int,
            ],
        );
        let p = p.conv2d(conv, input, weight, output, im2col);
        p.batch_norm(output, conv.rows(), conv.output_c as int, norm_name, relu)
    }

    /// One block of the backbone. Its output lies in the second of the buffers that the input is
    /// not in. Where the shape changes, the shortcut has a convolution of its own.
    pub open spec fn basic_block(
        self,
        input: Buffer,
        height: int,
        width: int,
        a: Buffer,
        b: Buffer,
        c: Buffer,
        im2col: Buffer,
        block: BlockSpec,
    ) -> (PlanView, Buffer) {
        let h = div_up(height, block.stride as int);
        let w = div_up(width, block.stride as int);
        let n = h * w * block.out_channels;
        let base = text("model.backbone.") + text(block.name);
        match free_pair(input, a, b, c) {
            None => (self.failed(Error::WorkspaceTooSmall), a.piece(0, n)),
            Some((temp, output)) => {
                let temp = temp.piece(0, n);
                let output = output.piece(0, n);
                let p = self.conv_norm(
                    block.first(height, width),
                    input,
                    base + text(".conv1.weight"),
                    base + text(".bn1"),
                    temp,
                    im2col,
                    true,
                );
                let p = p.conv_norm(
                    block.second(h, w),
                    temp,
                    base + text(".conv2.weight"),
                    base + text(".bn2"),
                    output,
                    im2col,
                    false,
                );
                if block.downsample {
                    let p = p.conv_norm(
                        block.shortcut(height, width),
                        input,
                        base + text(".downsample.0.weight"),
                        base + text(".downsample.1"),
                        temp,
                        im2col,
                        false,
                    );
                    (p.push(Step::AddRelu { output, shortcut: temp }), output)
                } else {
                    (p.push(Step::AddRelu { output, shortcut: input.piece(0, n) }), output)
                }
            },
        }
    }
}

impl<'m, 'a> Planner<'m, 'a> {
    pub(crate) fn weight1(&mut self, name: &[u8], a: usize) -> (r: Weight)
        requires
            old(self).wf(),
            4 * a <= usize::MAX,
        ensures
            (final(self)@, r) == old(self)@.weight(name@, seq![a as int]),
            final(self).wf(),
            r.len == a,
            r.fits(),
            final(self).roomy(old(self), 0),
            final(self).error is None ==> old(self).error is None && r.inside(
                old(self).weights.file@.len() as int,
                old(self).address as int,
            ),
    {
        reveal_with_fuel(volume, 2);
        let ghost shape: Seq<int> = seq![a as int];
        assert(shape.drop_last() =~= seq![]);
        let none: Weight = Weight { offset: 0, len: a };
        if self.error.is_some() {
            return none;
        }
        let dims: [usize; 4] = [a, 0, 0, 0];
        assert(dims@.take(1).map_values(|n: usize| n as int) =~= shape);
        match self.place(name, 1, dims) {
            Err(error) => {
                self.fail(error);
                none
            },
            Ok(weight) => {
                self.weights.file.len();
                weight
            },
        }
    }

    pub(crate) fn weight2(&mut self, name: &[u8], a: usize, b: usize) -> (r: Weight)
        requires
            old(self).wf(),
            4 * (a * b) <= usize::MAX,
        ensures
            (final(self)@, r) == old(self)@.weight(name@, seq![a as int, b as int]),
            final(self).wf(),
            r.len == a * b,
            r.fits(),
            final(self).roomy(old(self), 0),
            final(self).error is None ==> old(self).error is None && r.inside(
                old(self).weights.file@.len() as int,
                old(self).address as int,
            ),
    {
        reveal_with_fuel(volume, 3);
        let ghost shape: Seq<int> = seq![a as int, b as int];
        assert(shape.drop_last() =~= seq![a as int]);
        assert(shape.drop_last().drop_last() =~= seq![]);
        let none: Weight = Weight { offset: 0, len: a * b };
        if self.error.is_some() {
            return none;
        }
        let dims: [usize; 4] = [a, b, 0, 0];
        assert(dims@.take(2).map_values(|n: usize| n as int) =~= shape);
        match self.place(name, 2, dims) {
            Err(error) => {
                self.fail(error);
                none
            },
            Ok(weight) => {
                self.weights.file.len();
                weight
            },
        }
    }

    /// The weights of a convolution with a square kernel.
    pub(crate) fn weight4(&mut self, name: &[u8], output_c: usize, input_c: usize, kernel: usize) -> (r:
        Weight)
        requires
            old(self).wf(),
            output_c <= 512,
            input_c <= 512,
            kernel <= 7,
        ensures
            (final(self)@, r) == old(self)@.weight(
                name@,
                seq![output_c as int, input_c as int, kernel as int, kernel as int],
            ),
            final(self).wf(),
            r.len == output_c * (input_c * kernel * kernel),
            r.fits(),
            final(self).roomy(old(self), 0),
            final(self).error is None ==> old(self).error is None && r.inside(
                old(self).weights.file@.len() as int,
                old(self).address as int,
            ),
    {
        reveal_with_fuel(volume, 5);
        let ghost shape: Seq<int> = seq![
            output_c as int,
            input_c as int,
            kernel as int,
            kernel as int,
        ];
        assert(shape.drop_last() =~= seq![output_c as int, input_c as int, kernel as int]);
        assert(shape.drop_last().drop_last() =~= seq![output_c as int, input_c as int]);
        assert(shape.drop_last().drop_last().drop_last() =~= seq![output_c as int]);
        assert(shape.drop_last().drop_last().drop_last().drop_last() =~= seq![]);
        assert(input_c * kernel <= 512 * 7) by (nonlinear_arith)
            requires
                input_c <= 512,
                kernel <= 7,
        ;
        assert(input_c * kernel * kernel <= 512 * 7 * 7) by (nonlinear_arith)
            requires
                input_c * kernel <= 512 * 7,
                kernel <= 7,
        ;
        assert(output_c * (input_c * kernel * kernel) <= 512 * (512 * 7 * 7)) by (nonlinear_arith)
            requires
                output_c <= 512,
                input_c * kernel * kernel <= 512 * 7 * 7,
        ;
        assert(output_c * input_c * kernel * kernel == output_c * (input_c * kernel * kernel))
            by (nonlinear_arith);
        let none: Weight = Weight { offset: 0, len: output_c * (input_c * kernel * kernel) };
        if self.error.is_some() {
            return none;
        }
        let dims: [usize; 4] = [output_c, input_c, kernel, kernel];
        assert(dims@.take(4).map_values(|n: usize| n as int) =~= shape);
        match self.place(name, 4, dims) {
            Err(error) => {
                self.fail(error);
                none
            },
            Ok(weight) => {
                self.weights.file.len();
                weight
            },
        }
    }

    fn linear(
        &mut self,
        input: Operand,
        rows: usize,
        input_dim: usize,
        weight: Weight,
        bias: Weight,
        output: Operand,
        output_dim: usize,
    )
        requires
            old(self).wf(),
            old(self).error is None ==> old(self).fits(
                Step::Linear { input, rows, input_dim, weight, bias, output, output_dim },
            ),
        ensures
            final(self)@ == old(self)@.linear(
                input,
                rows as int,
                input_dim as int,
                weight,
                bias,
                output,
                output_dim as int,
            ),
            final(self).wf(),
            final(self).roomy(old(self), 0),
    {
        if self.provider == KernelProvider::AclNeon && rows >= 128 && (input_dim >= 1024
            || output_dim >= 1024) {
            self.fail(Error::AclProviderUnavailable);
        } else {
            self.push(Step::Linear { input, rows, input_dim, weight, bias, output, output_dim });
        }
    }

    fn conv2d(
        &mut self,
        conv: Conv,
        input: Buffer,
        weight: Weight,
        output: Buffer,
        im2col: Buffer,
    )
        requires
            old(self).wf(),
            old(self).error is None ==> old(self).fits(
                Step::Conv { conv, input, weight, output, im2col },
            ),
        ensures
            final(self)@ == old(self)@.conv2d(conv, input, weight, output, im2col),
            final(self).wf(),
            final(self).roomy(old(self), 0),
    {
        if self.provider == KernelProvider::AclNeon {
            self.fail(Error::AclProviderUnavailable);
        } else {
            self.push(Step::Conv { conv, input, weight, output, im2col });
        }
    }

    fn batch_norm(
        &mut self,
        buffer: Buffer,
        pixels: usize,
        channels: usize,
        prefix: &[u8],
        relu: bool,
    )
        requires
            old(self).wf(),
            channels <= 512,
            old(self).error is None ==> buffer.len == pixels * channels && buffer.inside(
                old(self).len as int,
            ),
        ensures
            final(self)@ == old(self)@.batch_norm(
                buffer,
                pixels as int,
                channels as int,
                prefix@,
                relu,
            ),
            final(self).wf(),
            final(self).roomy(old(self), 0),
    {
        let weight: Weight = self.weight1(name_of(prefix, ".weight").as_slice(), channels);
        let bias: Weight = self.weight1(name_of(prefix, ".bias").as_slice(), channels);
        let mean: Weight = self.weight1(name_of(prefix, ".running_mean").as_slice(), channels);
        let variance: Weight = self.weight1(name_of(prefix, ".running_var").as_slice(), channels);
        self.push(
            Step::BatchNorm { buffer, pixels, channels, weight, bias, mean, variance, relu },
        );
    }
}


/// Three buffers of the same length and one for unfolded images, all apart, and an input that
/// lies at the start of one of the three.
pub open spec fn scratch(input: Buffer, a: Buffer, b: Buffer, c: Buffer, im2col: Buffer) -> bool {
    &&& a.apart(b) && a.apart(c) && b.apart(c)
    &&& a.apart(im2col) && b.apart(im2col) && c.apart(im2col)
    &&& input.offset == a.offset || input.offset == b.offset || input.offset == c.offset
    &&& input.len <= a.len
}

/// A block with an image of this size fits buffers of `len` floats and room for `unfolded` floats.
pub open spec fn block_fits(
    block: BlockSpec,
    height: int,
    width: int,
    len: int,
    unfolded: int,
) -> bool {
    let h = div_up(height, block.stride as int);
    let w = div_up(width, block.stride as int);
    &&& block.wf()
    &&& 1 <= height <= 90
    &&& 1 <= width <= 160
    &&& 0 < h * w * block.out_channels <= len
    &&& 0 < height * width * block.in_channels <= len
    &&& (h * w) * (block.in_channels * 9) <= unfolded
    &&& (h * w) * (block.out_channels * 9) <= unfolded
}

fn pick(input: Buffer, a: Buffer, b: Buffer, c: Buffer) -> (r: Option<(Buffer, Buffer)>)
    ensures
        r == free_pair(input, a, b, c),
{
    let fa: bool = a.offset != input.offset;
    let fb: bool = b.offset != input.offset;
    let fc: bool = c.offset != input.offset;
    if fa && fb {
        Some((a, b))
    } else if fa && fc {
        Some((a, c))
    } else if fb && fc {
        Some((b, c))
    } else {
        None
    }
}

/// The convolutions of a block have the sizes that the block has.
proof fn lemma_block_convs(block: BlockSpec, height: int, width: int, len: int, unfolded: int)
    requires
        block_fits(block, height, width, len, unfolded),
        len <= usize::MAX,
    ensures
        ({
            let h = div_up(height, block.stride as int);
            let w = div_up(width, block.stride as int);
            let first = block.first(height, width);
            let second = block.second(h, w);
            let shortcut = block.shortcut(height, width);
            &&& 1 <= h <= height
            &&& 1 <= w <= width
            &&& first.wf() && first.output_h() == h && first.output_w() == w
            &&& second.wf() && second.output_h() == h && second.output_w() == w
            &&& shortcut.wf() && shortcut.output_h() == h && shortcut.output_w() == w
            &&& first.columns() == block.in_channels * 9
            &&& second.columns() == block.out_channels * 9
            &&& shortcut.columns() == block.in_channels
            &&& (h * w) * block.in_channels <= unfolded
            &&& h * w <= 90 * 160
            &&& block.stride == 1 ==> h == height && w == width
        }),
{
    let h = div_up(height, block.stride as int);
    let w = div_up(width, block.stride as int);
    if block.stride == 1 {
        assert(h == height && w == width);
    } else {
        assert(h == (height + 1) / 2 && w == (width + 1) / 2);
    }
    assert(h * w <= 90 * 160 && 0 <= h * w) by (nonlinear_arith)
        requires
            1 <= h <= 90,
            1 <= w <= 160,
    ;
    let ic = block.in_channels as int;
    let oc = block.out_channels as int;
    assert(ic * 3 * 3 == ic * 9);
    assert(oc * 3 * 3 == oc * 9);
    assert((h * w) * ic <= (h * w) * (ic * 9)) by (nonlinear_arith)
        requires
            0 <= h * w,
            ic >= 1,
    ;
}

impl<'m, 'a> Planner<'m, 'a> {
    /// Where there were `need` floats left, the workspace was not too small.
    pub open spec fn roomy(&self, before: &Self, need: int) -> bool {
        before.error != Some(Error::WorkspaceTooSmall) && before.top + need <= before.len
            ==> self.error != Some(Error::WorkspaceTooSmall)
    }

    /// The same model and workspace. What went wrong stays wrong.
    pub open spec fn follows(&self, before: &Self) -> bool {
        &&& self.len == before.len
        &&& self.weights.file@ == before.weights.file@
        &&& self.address == before.address
        &&& self.error is None ==> before.error is None
    }

    fn conv_norm(
        &mut self,
        conv: Conv,
        input: Buffer,
        weight_name: &[u8],
        norm_name: &[u8],
        output: Buffer,
        im2col: Buffer,
        relu: bool,
    )
        requires
            old(self).wf(),
            conv.wf(),
            conv.output_c <= 512,
            conv.input_c <= 512,
            conv.kernel <= 7,
            0 <= conv.output_h() <= 180,
            0 <= conv.output_w() <= 320,
            conv.input_h <= 360,
            conv.input_w <= 640,
            conv.padding <= 3,
            old(self).error is None ==> {
                &&& input.len >= conv.input_h * conv.input_w * conv.input_c
                &&& output.len == conv.rows() * conv.output_c
                &&& im2col.len >= conv.rows() * conv.columns()
                &&& input.inside(old(self).len as int)
                &&& output.inside(old(self).len as int)
                &&& im2col.inside(old(self).len as int)
                &&& input.apart(output) && input.apart(im2col) && output.apart(im2col)
            },
        ensures
            final(self)@ == old(self)@.conv_norm(
                conv,
                input,
                weight_name@,
                norm_name@,
                output,
                im2col,
                relu,
            ),
            final(self).wf(),
            final(self).roomy(old(self), 0),
            final(self).follows(old(self)),
            final(self).top == old(self).top,
    {
        reveal(PlanView::conv_norm);
        assert(conv.rows() <= 180 * 320) by (nonlinear_arith)
            requires
                conv.rows() == conv.output_h() * conv.output_w(),
                0 <= conv.output_h() <= 180,
                0 <= conv.output_w() <= 320,
        ;
        let h: usize = (conv.input_h + 2 * conv.padding - conv.kernel) / conv.stride + 1;
        let w: usize = (conv.input_w + 2 * conv.padding - conv.kernel) / conv.stride + 1;
        let weight: Weight = self.weight4(weight_name, conv.output_c, conv.input_c, conv.kernel);
        self.conv2d(conv, input, weight, output, im2col);
        self.batch_norm(output, h * w, conv.output_c, norm_name, relu);
    }

    fn basic_block(
        &mut self,
        input: Buffer,
        height: usize,
        width: usize,
        a: Buffer,
        b: Buffer,
        c: Buffer,
        im2col: Buffer,
        block: BlockSpec,
    ) -> (r: (Buffer, usize, usize))
        requires
            old(self).wf(),
            a.fits() && b.fits() && c.fits() && input.fits(),
            a.len == b.len == c.len,
            input.len == height * width * block.in_channels,
            block_fits(block, height as int, width as int, a.len as int, im2col.len as int),
            old(self).error is None ==> scratch(input, a, b, c, im2col) && a.inside(
                old(self).len as int,
            ) && b.inside(old(self).len as int) && c.inside(old(self).len as int)
                && im2col.inside(old(self).len as int),
        ensures
            (final(self)@, r.0) == old(self)@.basic_block(
                input,
                height as int,
                width as int,
                a,
                b,
                c,
                im2col,
                block,
            ),
            r.1 == div_up(height as int, block.stride as int),
            r.2 == div_up(width as int, block.stride as int),
            r.0.len == r.1 * r.2 * block.out_channels,
            r.0.fits(),
            final(self).wf(),
            final(self).top == old(self).top,
            final(self).roomy(old(self), 0),
            final(self).follows(old(self)),
            final(self).error is None ==> scratch(
                r.0,
                a,
                b,
                c,
                im2col,
            ),
    {
        proof {
            lemma_block_convs(block, height as int, width as int, a.len as int, im2col.len as int);
        }
        let h: usize = (height + (block.stride - 1)) / block.stride;
        let w: usize = (width + (block.stride - 1)) / block.stride;
        let n: usize = h * w * block.out_channels;
        let oc: usize = block.out_channels;
        let ic: usize = block.in_channels;
        let pair: Option<(Buffer, Buffer)> = pick(input, a, b, c);
        let (temp, output): (Buffer, Buffer) = match pair {
            None => {
                self.fail(Error::WorkspaceTooSmall);
                return (a.sub(0, n), h, w);
            },
            Some(pair) => pair,
        };
        let temp: Buffer = temp.sub(0, n);
        let output: Buffer = output.sub(0, n);
        let stem: Vec<u8> = name_of("model.backbone.".as_bytes(), block.name);
        let base: &[u8] = stem.as_slice();
        self.conv_norm(
            Conv {
                input_h: height,
                input_w: width,
                input_c: ic,
                output_c: oc,
                kernel: 3,
                stride: block.stride,
                padding: 1,
            },
            input,
            name_of(base, ".conv1.weight").as_slice(),
            name_of(base, ".bn1").as_slice(),
            temp,
            im2col,
            true,
        );
        self.conv_norm(
            Conv {
                input_h: h,
                input_w: w,
                input_c: oc,
                output_c: oc,
                kernel: 3,
                stride: 1,
                padding: 1,
            },
            temp,
            name_of(base, ".conv2.weight").as_slice(),
            name_of(base, ".bn2").as_slice(),
            output,
            im2col,
            false,
        );
        if block.downsample {
            self.conv_norm(
                Conv {
                    input_h: height,
                    input_w: width,
                    input_c: ic,
                    output_c: oc,
                    kernel: 1,
                    stride: block.stride,
                    padding: 0,
                },
                input,
                name_of(base, ".downsample.0.weight").as_slice(),
                name_of(base, ".downsample.1").as_slice(),
                temp,
                im2col,
                false,
            );
            self.push(Step::AddRelu { output, shortcut: temp });
        } else {
            self.push(Step::AddRelu { output, shortcut: input.sub(0, n) });
        }
        (output, h, w)
    }
}


impl PlanView {
    /// The blocks of the backbone from block `i` on.
    pub open spec fn blocks(
        self,
        i: int,
        current: Buffer,
        height: int,
        width: int,
        a: Buffer,
        b: Buffer,
        c: Buffer,
        im2col: Buffer,
        camera: u8,
    ) -> (PlanView, Buffer, int, int)
        decreases 8 - i,
    {
        if i >= 8 {
            (self, current, height, width)
        } else {
            let block = block_at(i);
            let (p, next) = self.basic_block(current, height, width, a, b, c, im2col, block);
            p.push(Step::Done(InferenceStage::CameraBlock { camera, block: i as u8 })).blocks(
                i + 1,
                next,
                div_up(height, block.stride as int),
                div_up(width, block.stride as int),
                a,
                b,
                c,
                im2col,
                camera,
            )
        }
    }

    /// From an image to the features that the first block gets: they lie in the first of the
    /// three buffers for features.
    #[verifier::opaque]
    pub open spec fn camera_stem(self, camera: u8) -> (PlanView, Buffer, Buffer, Buffer, Buffer) {
        let (p, normalized) = self.take_floats(IMAGE_BYTES as int);
        let p = p.push(Step::NormalizeImage { camera, to: normalized });
        let p = p.push(Step::Done(InferenceStage::CameraNormalized { camera }));
        let (p, conv1) = p.take_floats(STEM_FLOATS as int);
        let (p, a) = p.take_floats(FEATURE_FLOATS as int);
        let (p, b) = p.take_floats(FEATURE_FLOATS as int);
        let (p, c) = p.take_floats(FEATURE_FLOATS as int);
        let (p, im2col) = p.take_floats(UNFOLDED_FLOATS as int);
        let p = p.conv_norm(
            stem(),
            normalized,
            text("model.backbone.conv1.weight"),
            text("model.backbone.bn1"),
            conv1,
            im2col,
            true,
        );
        let p = p.push(
            Step::MaxPool { input: conv1, input_h: 180, input_w: 320, channels: 64, output: a },
        );
        (p.push(Step::Done(InferenceStage::CameraStem { camera })), a, b, c, im2col)
    }

    /// From an image to its features.
    #[verifier::opaque]
    pub open spec fn backbone(self, camera: u8) -> (PlanView, Buffer, int, int) {
        let (p, a, b, c, im2col) = self.camera_stem(camera);
        p.blocks(0, a, 90, 160, a, b, c, im2col, camera)
    }

    /// From an image to its tokens, which go into the encoder from token `token` on.
#[verifier::opaque]
    pub open spec fn encode_camera(
        self,
        encoder: Buffer,
        encoder_pos: Buffer,
        token: int,
        camera: u8,
    ) -> PlanView {
        let (p, current, height, width) = self.backbone(camera);
        let p = if height != FEATURE_HEIGHT || width != FEATURE_WIDTH {
            p.failed(Error::ShapeMismatch)
        } else {
            p
        };
        let (p, weight) = p.weight(
            text("model.encoder_img_feat_input_proj.weight"),
            seq![MODEL_DIM as int, MODEL_DIM as int, 1, 1],
        );
        let (p, bias) = p.weight(
            text("model.encoder_img_feat_input_proj.bias"),
            seq![MODEL_DIM as int],
        );
        let p = p.linear(
            Operand::Buffer(current),
            IMAGE_TOKENS as int,
            MODEL_DIM as int,
            weight,
            bias,
            Operand::Buffer(encoder.piece(token * MODEL_DIM, IMAGE_TOKENS * MODEL_DIM)),
            MODEL_DIM as int,
        );
        let p = p.push(
            Step::Position { to: encoder_pos.piece(token * MODEL_DIM, IMAGE_TOKENS * MODEL_DIM) },
        );
        p.push(Step::Done(InferenceStage::CameraProjected { camera }))
    }
}

/// The first convolution.
pub open spec fn stem() -> Conv {
    Conv {
        input_h: IMAGE_HEIGHT,
        input_w: IMAGE_WIDTH,
        input_c: 3,
        output_c: 64,
        kernel: 7,
        stride: 2,
        padding: 3,
    }
}

/// The buffers for features and unfolded images have their sizes.
pub open spec fn buffers_ready(a: Buffer, b: Buffer, c: Buffer, im2col: Buffer) -> bool {
    &&& a.fits() && b.fits() && c.fits()
    &&& a.len == FEATURE_FLOATS && b.len == FEATURE_FLOATS && c.len == FEATURE_FLOATS
    &&& im2col.len == UNFOLDED_FLOATS
}

/// They follow one another in the workspace, above `bottom`.
pub open spec fn buffers_placed(
    a: Buffer,
    b: Buffer,
    c: Buffer,
    im2col: Buffer,
    bottom: int,
    len: int,
) -> bool {
    &&& bottom <= a.offset
    &&& a.offset + FEATURE_FLOATS == b.offset
    &&& b.offset + FEATURE_FLOATS == c.offset
    &&& c.offset + FEATURE_FLOATS == im2col.offset
    &&& im2col.offset + UNFOLDED_FLOATS <= len
}

proof fn lemma_pool(h: usize, w: usize, c: usize)
    requires
        h == 180,
        w == 320,
        c == 64,
    ensures
        h * w * c == STEM_FLOATS,
        ((h + 1) / 2) * ((w + 1) / 2) * c == FEATURE_FLOATS,
{
    assert(h * w * c == 3_686_400) by (nonlinear_arith)
        requires
            h == 180,
            w == 320,
            c == 64,
    ;
    let (h2, w2) = ((h + 1) / 2, (w + 1) / 2);
    assert(h2 * w2 * c == 921_600) by (nonlinear_arith)
        requires
            h2 == 90,
            w2 == 160,
            c == 64,
    ;
}

proof fn lemma_stem()
    ensures
        stem().wf(),
        stem().output_h() == 180,
        stem().output_w() == 320,
        stem().rows() == 57_600,
        stem().columns() == 147,
        stem().rows() * stem().columns() == UNFOLDED_FLOATS,
        stem().rows() * stem().output_c == STEM_FLOATS,
        stem().input_h * stem().input_w * stem().input_c == IMAGE_BYTES,
{
    let conv = stem();
    assert((conv.input_h + 2 * conv.padding - conv.kernel) / 2 == 179);
    assert((conv.input_w + 2 * conv.padding - conv.kernel) / 2 == 319);
    assert(conv.output_h() * conv.output_w() == 57_600) by (nonlinear_arith)
        requires
            conv.output_h() == 180,
            conv.output_w() == 320,
    ;
    assert(conv.input_c * conv.kernel * conv.kernel == 147) by (nonlinear_arith)
        requires
            conv.input_c == 3,
            conv.kernel == 7,
    ;
    assert(conv.rows() * conv.columns() == 8_467_200) by (nonlinear_arith)
        requires
            conv.rows() == 57_600,
            conv.columns() == 147,
    ;
    assert(conv.rows() * conv.output_c == 3_686_400) by (nonlinear_arith)
        requires
            conv.rows() == 57_600,
            conv.output_c == 64,
    ;
    assert(conv.input_h * conv.input_w * conv.input_c == 691_200) by (nonlinear_arith)
        requires
            conv.input_h == 360,
            conv.input_w == 640,
            conv.input_c == 3,
    ;
}

/// The size of the image that block `i` gets.
pub open spec fn size_at(i: int) -> (int, int)
    decreases i,
{
    if i <= 0 {
        (90, 160)
    } else {
        let (height, width) = size_at(i - 1);
        let stride = block_at(i - 1).stride as int;
        (div_up(height, stride), div_up(width, stride))
    }
}

proof fn lemma_block_products(h: int, w: int, oc: int, ic: int, height: int, width: int)
    by (nonlinear_arith)
    requires
        (h == 90 && w == 160 && oc == 64 && ic == 64 && height == 90 && width == 160)
            || (h == 45 && w == 80 && oc == 128 && ic == 64 && height == 90 && width == 160)
            || (h == 45 && w == 80 && oc == 128 && ic == 128 && height == 45 && width == 80)
            || (h == 23 && w == 40 && oc == 256 && ic == 128 && height == 45 && width == 80)
            || (h == 23 && w == 40 && oc == 256 && ic == 256 && height == 23 && width == 40)
            || (h == 12 && w == 20 && oc == 512 && ic == 256 && height == 23 && width == 40)
            || (h == 12 && w == 20 && oc == 512 && ic == 512 && height == 12 && width == 20),
    ensures
        0 < h * w * oc <= 921_600,
        0 < height * width * ic <= 921_600,
        (h * w) * (ic * 9) <= 8_467_200,
        (h * w) * (oc * 9) <= 8_467_200,
{
}

/// Each block fits the buffers, and gets as many channels as the block before it gives.
proof fn lemma_blocks(i: int)
    requires
        0 <= i <= 8,
    ensures
        i < 8 ==> block_fits(
            block_at(i),
            size_at(i).0,
            size_at(i).1,
            FEATURE_FLOATS as int,
            UNFOLDED_FLOATS as int,
        ),
        0 < i < 8 ==> block_at(i).in_channels == block_at(i - 1).out_channels,
        i == 8 ==> size_at(i) == (12int, 20int),
{
    assert(div_up(90, 1) == 90 && div_up(160, 1) == 160);
    assert(div_up(45, 1) == 45 && div_up(80, 1) == 80);
    assert(div_up(23, 1) == 23 && div_up(40, 1) == 40);
    assert(div_up(12, 1) == 12 && div_up(20, 1) == 20);
    assert(div_up(90, 2) == 45 && div_up(160, 2) == 80);
    assert(div_up(45, 2) == 23 && div_up(80, 2) == 40);
    assert(div_up(23, 2) == 12 && div_up(40, 2) == 20);
    assert(size_at(0) == (90int, 160int));
    assert(size_at(1) == (90int, 160int));
    assert(size_at(2) == (90int, 160int));
    assert(size_at(3) == (45int, 80int));
    assert(size_at(4) == (45int, 80int));
    assert(size_at(5) == (23int, 40int));
    assert(size_at(6) == (23int, 40int));
    assert(size_at(7) == (12int, 20int));
    assert(size_at(8) == (12int, 20int));
    if i < 8 {
        let block = block_at(i);
        let (height, width) = size_at(i);
        let stride = block.stride as int;
        lemma_block_products(
            div_up(height, stride),
            div_up(width, stride),
            block.out_channels as int,
            block.in_channels as int,
            height,
            width,
        );
    }
}

impl<'m, 'a> Planner<'m, 'a> {
    fn max_pool(
        &mut self,
        input: Buffer,
        input_h: usize,
        input_w: usize,
        channels: usize,
        output: Buffer,
    )
        requires
            old(self).wf(),
            old(self).error is None ==> {
                &&& input.len == input_h * input_w * channels
                &&& output.len == ((input_h + 1) / 2) * ((input_w + 1) / 2) * channels
                &&& input.inside(old(self).len as int) && output.inside(old(self).len as int)
                &&& input.apart(output)
            },
        ensures
            final(self)@ == old(self)@.push(
                Step::MaxPool { input, input_h, input_w, channels, output },
            ),
            final(self).wf(),
    {
        self.push(Step::MaxPool { input, input_h, input_w, channels, output });
    }

    #[verifier::rlimit(30)]
    fn camera_stem(&mut self, camera: u8) -> (r: (Buffer, Buffer, Buffer, Buffer))
        requires
            old(self).wf(),
            camera < 2,
        ensures
            ({
                let (p, a, b, c, im2col) = old(self)@.camera_stem(camera);
                final(self)@ == p && r == (a, b, c, im2col)
            }),
            final(self).wf(),
            final(self).roomy(old(self), CAMERA_FLOATS as int),
            final(self).follows(old(self)),
            final(self).top >= old(self).top,
            buffers_ready(r.0, r.1, r.2, r.3),
            final(self).error is None ==> buffers_placed(
                r.0,
                r.1,
                r.2,
                r.3,
                old(self).top as int,
                old(self).len as int,
            ),
    {
        reveal(PlanView::camera_stem);
        let normalized: Buffer = self.take_floats(IMAGE_BYTES);
        self.push(Step::NormalizeImage { camera, to: normalized });
        self.push(Step::Done(InferenceStage::CameraNormalized { camera }));
        let conv1: Buffer = self.take_floats(STEM_FLOATS);
        let a: Buffer = self.take_floats(FEATURE_FLOATS);
        let b: Buffer = self.take_floats(FEATURE_FLOATS);
        let c: Buffer = self.take_floats(FEATURE_FLOATS);
        let im2col: Buffer = self.take_floats(UNFOLDED_FLOATS);
        let conv: Conv = Conv {
            input_h: IMAGE_HEIGHT,
            input_w: IMAGE_WIDTH,
            input_c: 3,
            output_c: 64,
            kernel: 7,
            stride: 2,
            padding: 3,
        };
        proof {
            lemma_stem();
        }
        assert(conv == stem());
        self.conv_norm(
            conv,
            normalized,
            "model.backbone.conv1.weight".as_bytes(),
            "model.backbone.bn1".as_bytes(),
            conv1,
            im2col,
            true,
        );
        proof {
            lemma_pool(180, 320, 64);
        }
        self.max_pool(conv1, 180, 320, 64, a);
        self.push(Step::Done(InferenceStage::CameraStem { camera }));
        (a, b, c, im2col)
    }

    fn backbone(&mut self, camera: u8) -> (r: (Buffer, usize, usize))
        requires
            old(self).wf(),
            camera < 2,
        ensures
            ({
                let (p, current, height, width) = old(self)@.backbone(camera);
                final(self)@ == p && r.0 == current && r.1 == height && r.2 == width
            }),
            final(self).wf(),
            final(self).roomy(old(self), CAMERA_FLOATS as int),
            final(self).follows(old(self)),
            final(self).top >= old(self).top,
            r.0.fits(),
            r.0.len == IMAGE_TOKENS * MODEL_DIM,
            r.1 == FEATURE_HEIGHT,
            r.2 == FEATURE_WIDTH,
            final(self).error is None ==> r.0.inside(final(self).len as int) && r.0.offset
                >= old(self).top,
    {
        reveal(PlanView::backbone);
        let ghost start = *self;
        let (a, b, c, im2col): (Buffer, Buffer, Buffer, Buffer) = self.camera_stem(camera);
        proof {
            lemma_blocks(0);
        }
        let ghost whole = start@.backbone(camera);
        let mut current: Buffer = a;
        let mut height: usize = 90;
        let mut width: usize = 160;
        let mut i: usize = 0;
        while i < 8
            invariant
                i <= 8,
                self.wf(),
                self.follows(&start),
                self.roomy(&start, CAMERA_FLOATS as int),
                self.top >= start.top,
                height == size_at(i as int).0,
                width == size_at(i as int).1,
                current.fits(),
                buffers_ready(a, b, c, im2col),
                current.len == height * width * (if i < 8 {
                    block_at(i as int).in_channels as int
                } else {
                    512
                }),
                self.error is None ==> {
                    &&& scratch(current, a, b, c, im2col)
                    &&& buffers_placed(a, b, c, im2col, start.top as int, self.len as int)
                },
                whole == self@.blocks(
                    i as int,
                    current,
                    height as int,
                    width as int,
                    a,
                    b,
                    c,
                    im2col,
                    camera,
                ),
            decreases 8 - i,
        {
            proof {
                lemma_blocks(i as int);
                lemma_blocks(i + 1);
            }
            let (next, h, w): (Buffer, usize, usize) = self.basic_block(
                current,
                height,
                width,
                a,
                b,
                c,
                im2col,
                backbone_block(i),
            );
            self.push(Step::Done(InferenceStage::CameraBlock { camera, block: i as u8 }));
            current = next;
            height = h;
            width = w;
            i = i + 1;
        }
        proof {
            lemma_blocks(8);
        }
        assert(height * width * 512 == IMAGE_TOKENS * MODEL_DIM) by (nonlinear_arith)
            requires
                height == 12,
                width == 20,
        ;
        (current, height, width)
    }
}


impl PlanView {
    /// Attention of `query` to `key` and `value` before its last projection. The projections of
    /// the three stand one behind the other in one tensor.
    #[verifier::opaque]
    pub open spec fn attend(
        self,
        query: Buffer,
        query_pos: Buffer,
        key: Buffer,
        key_pos: Buffer,
        value: Buffer,
        query_rows: int,
        key_rows: int,
        base: Seq<u8>,
    ) -> (PlanView, Buffer) {
        let d = MODEL_DIM as int;
        let (p, in_weight) = self.weight(base + text(".in_proj_weight"), seq![3 * d, d]);
        let (p, in_bias) = p.weight(base + text(".in_proj_bias"), seq![3 * d]);
        let (p, q) = p.take_floats(query_rows * d);
        let (p, k) = p.take_floats(key_rows * d);
        let (p, v) = p.take_floats(key_rows * d);
        let (p, context) = p.take_floats(query_rows * d);
        let (p, scores) = p.take_floats(key_rows);
        let p = p.push(
            Step::LinearSum {
                input: query,
                position: query_pos,
                rows: query_rows as usize,
                weight: in_weight.piece(0, d * d),
                bias: in_bias.piece(0, d),
                output: q,
            },
        );
        let p = p.push(
            Step::LinearSum {
                input: key,
                position: key_pos,
                rows: key_rows as usize,
                weight: in_weight.piece(d * d, d * d),
                bias: in_bias.piece(d, d),
                output: k,
            },
        );
        let p = p.linear(
            Operand::Buffer(value),
            key_rows,
            d,
            in_weight.piece(2 * d * d, d * d),
            in_bias.piece(2 * d, d),
            Operand::Buffer(v),
            d,
        );
        let p = p.push(
            Step::Attention {
                query: q,
                key: k,
                value: v,
                query_rows: query_rows as usize,
                key_rows: key_rows as usize,
                scores,
                output: context,
            },
        );
        (p, context)
    }

    /// Attention. The result is a buffer of its own.
    #[verifier::opaque]
    pub open spec fn attention(
        self,
        query: Buffer,
        query_pos: Buffer,
        key: Buffer,
        key_pos: Buffer,
        value: Buffer,
        query_rows: int,
        key_rows: int,
        prefix: Seq<u8>,
        module: &str,
    ) -> (PlanView, Buffer) {
        let base = prefix + text(".") + text(module);
        let d = MODEL_DIM as int;
        let (p, context) = self.attend(
            query,
            query_pos,
            key,
            key_pos,
            value,
            query_rows,
            key_rows,
            base,
        );
        let (p, output) = p.take_floats(query_rows * d);
        let (p, out_weight) = p.weight(base + text(".out_proj.weight"), seq![d, d]);
        let (p, out_bias) = p.weight(base + text(".out_proj.bias"), seq![d]);
        let p = p.linear(
            Operand::Buffer(context),
            query_rows,
            d,
            out_weight,
            out_bias,
            Operand::Buffer(output),
            d,
        );
        (p, output)
    }

    /// Adds to a buffer and normalizes its rows.
    #[verifier::opaque]
    pub open spec fn add_norm(
        self,
        to: Buffer,
        addition: Buffer,
        rows: int,
        prefix: Seq<u8>,
    ) -> PlanView {
        let (p, weight) = self.weight(prefix + text(".weight"), seq![MODEL_DIM as int]);
        let (p, bias) = p.weight(prefix + text(".bias"), seq![MODEL_DIM as int]);
        p.push(Step::AddLayerNorm { to, addition, rows: rows as usize, weight, bias })
    }

    /// Two linear layers with a rectifier between them, added back in. The workspace is as before
    /// then.
    #[verifier::opaque]
    pub open spec fn feed_forward(
        self,
        x: Buffer,
        rows: int,
        prefix: Seq<u8>,
        norm: &str,
        mark: int,
    ) -> PlanView {
        let d = MODEL_DIM as int;
        let f = FF_DIM as int;
        let (p, hidden) = self.take_floats(rows * f);
        let (p, weight) = p.weight(prefix + text(".linear1.weight"), seq![f, d]);
        let (p, bias) = p.weight(prefix + text(".linear1.bias"), seq![f]);
        let p = p.linear(Operand::Buffer(x), rows, d, weight, bias, Operand::Buffer(hidden), f);
        let p = p.push(Step::Relu { buffer: hidden });
        let (p, output) = p.take_floats(rows * d);
        let (p, weight) = p.weight(prefix + text(".linear2.weight"), seq![d, f]);
        let (p, bias) = p.weight(prefix + text(".linear2.bias"), seq![d]);
        let p = p.linear(
            Operand::Buffer(hidden),
            rows,
            f,
            weight,
            bias,
            Operand::Buffer(output),
            d,
        );
        let p = p.add_norm(x, output, rows, prefix + text(".") + text(norm));
        p.reset(mark)
    }

    #[verifier::opaque]
    pub open spec fn encoder_layer(
        self,
        x: Buffer,
        pos: Buffer,
        prefix: Seq<u8>,
        mark: int,
    ) -> PlanView {
        let n = ENCODER_TOKENS as int;
        let (p, attention) = self.attention(x, pos, x, pos, x, n, n, prefix, "self_attn");
        let p = p.add_norm(x, attention, n, prefix + text(".norm1"));
        p.reset(mark).feed_forward(x, n, prefix, "norm2", mark)
    }

    /// The decoder attends to itself and then to the encoder.
    #[verifier::opaque]
    pub open spec fn decoder_layer(
        self,
        x: Buffer,
        x_pos: Buffer,
        encoder: Buffer,
        encoder_pos: Buffer,
        mark: int,
    ) -> PlanView {
        let prefix = text("model.decoder.layers.0");
        let n = ACTION_STEPS as int;
        let (p, own) = self.attention(x, x_pos, x, x_pos, x, n, n, prefix, "self_attn");
        let p = p.add_norm(x, own, n, prefix + text(".norm1"));
        let (p, cross) = p.reset(mark).attention(
            x,
            x_pos,
            encoder,
            encoder_pos,
            encoder,
            n,
            ENCODER_TOKENS as int,
            prefix,
            "multihead_attn",
        );
        let p = p.add_norm(x, cross, n, prefix + text(".norm2"));
        p.reset(mark).feed_forward(x, n, prefix, "norm3", mark)
    }

    /// The first two tokens: the latent, which is zero but for its bias, and the state.
    #[verifier::opaque]
    pub open spec fn prepare_scalar_tokens(
        self,
        encoder: Buffer,
        encoder_pos: Buffer,
    ) -> PlanView {
        let d = MODEL_DIM as int;
        let (p, latent) = self.weight(text("model.encoder_latent_input_proj.bias"), seq![d]);
        let p = p.push(Step::CopyWeight { weight: latent, to: encoder.piece(0, d) });
        let (p, weight) = p.weight(
            text("model.encoder_robot_state_input_proj.weight"),
            seq![d, STATE_DIM as int],
        );
        let (p, bias) = p.weight(text("model.encoder_robot_state_input_proj.bias"), seq![d]);
        let p = p.linear(
            Operand::State,
            1,
            STATE_DIM as int,
            weight,
            bias,
            Operand::Buffer(encoder.piece(d, d)),
            d,
        );
        let (p, pos) = p.weight(
            text("model.encoder_1d_feature_pos_embed.weight"),
            seq![2, d],
        );
        p.push(Step::CopyWeight { weight: pos, to: encoder_pos.piece(0, 2 * d) })
    }

    pub open spec fn encoder_layers(
        self,
        i: int,
        x: Buffer,
        pos: Buffer,
        mark: int,
    ) -> PlanView
        decreases 4 - i,
    {
        if i >= 4 {
            self
        } else {
            self.encoder_layer(x, pos, text(encoder_prefix(i)), mark).push(
                Step::Done(InferenceStage::EncoderLayer { layer: i as u8 }),
            ).encoder_layers(i + 1, x, pos, mark)
        }
    }

    /// From the decoder's tokens to the actions.
    #[verifier::opaque]
    pub open spec fn action_head(self, decoder: Buffer) -> PlanView {
        let d = MODEL_DIM as int;
        let (p, weight) = self.weight(text("model.decoder.norm.weight"), seq![d]);
        let (p, bias) = p.weight(text("model.decoder.norm.bias"), seq![d]);
        let p = p.push(Step::LayerNorm { buffer: decoder, rows: ACTION_STEPS, weight, bias });
        let (p, weight) = p.weight(
            text("model.action_head.weight"),
            seq![ACTION_DIM as int, d],
        );
        let (p, bias) = p.weight(text("model.action_head.bias"), seq![ACTION_DIM as int]);
        let p = p.linear(
            Operand::Buffer(decoder),
            ACTION_STEPS as int,
            d,
            weight,
            bias,
            Operand::Actions,
            ACTION_DIM as int,
        );
        p.push(Step::DenormalizeActions).push(Step::Done(InferenceStage::ActionHead))
    }

    /// A whole forward pass.
    pub open spec fn predict(self) -> PlanView {
        let d = MODEL_DIM as int;
        if self.len < WORKSPACE_FLOATS {
            self.failed(Error::WorkspaceTooSmall)
        } else {
            let (p, encoder) = self.take_floats(ENCODER_TOKENS * d);
            let (p, encoder_pos) = p.take_floats(ENCODER_TOKENS * d);
            let (p, decoder) = p.take_floats(ACTION_STEPS * d);
            let (p, decoder_pos) = p.take_floats(ACTION_STEPS * d);
            let p = p.prepare_scalar_tokens(encoder, encoder_pos);
            let (p, weight) = p.weight(
                text("model.decoder_pos_embed.weight"),
                seq![ACTION_STEPS as int, d],
            );
            let p = p.push(Step::CopyWeight { weight, to: decoder_pos });
            let p = p.push(Step::Zero { to: decoder });
            let p = p.push(Step::Done(InferenceStage::InputPrepared));
            let mark = p.top;
            let p = p.encode_camera(encoder, encoder_pos, 2, 0).reset(mark);
            let p = p.encode_camera(encoder, encoder_pos, 2 + IMAGE_TOKENS, 1).reset(mark);
            let p = p.encoder_layers(0, encoder, encoder_pos, mark);
            let p = p.decoder_layer(decoder, decoder_pos, encoder, encoder_pos, mark);
            let p = p.push(Step::Done(InferenceStage::Decoder));
            p.action_head(decoder)
        }
    }
}

pub open spec fn encoder_prefix(i: int) -> &'static str {
    if i == 0 {
        "model.encoder.layers.0"
    } else if i == 1 {
        "model.encoder.layers.1"
    } else if i == 2 {
        "model.encoder.layers.2"
    } else {
        "model.encoder.layers.3"
    }
}

impl<'m, 'a> Planner<'m, 'a> {
    fn encode_camera(&mut self, encoder: Buffer, encoder_pos: Buffer, token: usize, camera: u8)
        requires
            old(self).wf(),
            camera < 2,
            encoder.len == ENCODER_TOKENS * MODEL_DIM,
            encoder_pos.len == ENCODER_TOKENS * MODEL_DIM,
            encoder.fits() && encoder_pos.fits(),
            token + IMAGE_TOKENS <= ENCODER_TOKENS,
            old(self).error is None ==> encoder.inside(old(self).top as int)
                && encoder_pos.inside(old(self).top as int),
        ensures
            final(self)@ == old(self)@.encode_camera(encoder, encoder_pos, token as int, camera),
            final(self).wf(),
            final(self).roomy(old(self), CAMERA_FLOATS as int),
            final(self).follows(old(self)),
            final(self).top >= old(self).top,
    {
        reveal(PlanView::encode_camera);
        let (current, height, width): (Buffer, usize, usize) = self.backbone(camera);
        if height != FEATURE_HEIGHT || width != FEATURE_WIDTH {
            self.fail(Error::ShapeMismatch);
        }
        let weight: Weight = self.weight4(
            "model.encoder_img_feat_input_proj.weight".as_bytes(),
            MODEL_DIM,
            MODEL_DIM,
            1,
        );
        let bias: Weight = self.weight1(
            "model.encoder_img_feat_input_proj.bias".as_bytes(),
            MODEL_DIM,
        );
        let target: Buffer = encoder.sub(token * MODEL_DIM, IMAGE_TOKENS * MODEL_DIM);
        self.linear(
            Operand::Buffer(current),
            IMAGE_TOKENS,
            MODEL_DIM,
            weight,
            bias,
            Operand::Buffer(target),
            MODEL_DIM,
        );
        self.push(
            Step::Position { to: encoder_pos.sub(token * MODEL_DIM, IMAGE_TOKENS * MODEL_DIM) },
        );
        self.push(Step::Done(InferenceStage::CameraProjected { camera }));
    }

    fn add_norm(&mut self, to: Buffer, addition: Buffer, rows: usize, prefix: &[u8])
        requires
            old(self).wf(),
            old(self).error is None ==> {
                &&& to.len == rows * MODEL_DIM && addition.len == to.len
                &&& to.inside(old(self).len as int) && addition.inside(old(self).len as int)
                &&& to.apart(addition)
            },
        ensures
            final(self)@ == old(self)@.add_norm(to, addition, rows as int, prefix@),
            final(self).wf(),
            final(self).roomy(old(self), 0),
            final(self).follows(old(self)),
            final(self).top == old(self).top,
    {
        reveal(PlanView::add_norm);
        let weight: Weight = self.weight1(name_of(prefix, ".weight").as_slice(), MODEL_DIM);
        let bias: Weight = self.weight1(name_of(prefix, ".bias").as_slice(), MODEL_DIM);
        self.push(Step::AddLayerNorm { to, addition, rows, weight, bias });
    }

    #[verifier::rlimit(40)]
    fn attend(
        &mut self,
        query: Buffer,
        query_pos: Buffer,
        key: Buffer,
        key_pos: Buffer,
        value: Buffer,
        query_rows: usize,
        key_rows: usize,
        base: &[u8],
    ) -> (r: Buffer)
        requires
            old(self).wf(),
            query_rows <= ENCODER_TOKENS,
            key_rows <= ENCODER_TOKENS,
            old(self).error is None ==> {
                let top = old(self).top as int;
                &&& query.len == query_rows * MODEL_DIM && query.inside(top)
                &&& query_pos.len == query_rows * MODEL_DIM && query_pos.inside(top)
                &&& key.len == key_rows * MODEL_DIM && key.inside(top)
                &&& key_pos.len == key_rows * MODEL_DIM && key_pos.inside(top)
                &&& value.len == key_rows * MODEL_DIM && value.inside(top)
            },
        ensures
            (final(self)@, r) == old(self)@.attend(
                query,
                query_pos,
                key,
                key_pos,
                value,
                query_rows as int,
                key_rows as int,
                base@,
            ),
            final(self).wf(),
            final(self).roomy(old(self), query_rows * 1024 + key_rows * 1025),
            final(self).follows(old(self)),
            old(self).top <= final(self).top <= old(self).top + query_rows * 1024 + key_rows
                * 1025,
            r.len == query_rows * MODEL_DIM,
            final(self).error is None ==> r.inside(final(self).top as int),
    {
        reveal(PlanView::attend);
        let d: usize = MODEL_DIM;
        let in_weight: Weight = self.weight2(
            name_of(base, ".in_proj_weight").as_slice(),
            3 * d,
            d,
        );
        let in_bias: Weight = self.weight1(name_of(base, ".in_proj_bias").as_slice(), 3 * d);
        let q: Buffer = self.take_floats(query_rows * d);
        let k: Buffer = self.take_floats(key_rows * d);
        let v: Buffer = self.take_floats(key_rows * d);
        let context: Buffer = self.take_floats(query_rows * d);
        let scores: Buffer = self.take_floats(key_rows);
        self.push(
            Step::LinearSum {
                input: query,
                position: query_pos,
                rows: query_rows,
                weight: in_weight.sub(0, d * d),
                bias: in_bias.sub(0, d),
                output: q,
            },
        );
        self.push(
            Step::LinearSum {
                input: key,
                position: key_pos,
                rows: key_rows,
                weight: in_weight.sub(d * d, d * d),
                bias: in_bias.sub(d, d),
                output: k,
            },
        );
        self.linear(
            Operand::Buffer(value),
            key_rows,
            d,
            in_weight.sub(2 * d * d, d * d),
            in_bias.sub(2 * d, d),
            Operand::Buffer(v),
            d,
        );
        self.push(
            Step::Attention {
                query: q,
                key: k,
                value: v,
                query_rows,
                key_rows,
                scores,
                output: context,
            },
        );
        context
    }

    fn attention(
        &mut self,
        query: Buffer,
        query_pos: Buffer,
        key: Buffer,
        key_pos: Buffer,
        value: Buffer,
        query_rows: usize,
        key_rows: usize,
        prefix: &[u8],
        module: &str,
    ) -> (r: Buffer)
        requires
            old(self).wf(),
            query_rows <= ENCODER_TOKENS,
            key_rows <= ENCODER_TOKENS,
            old(self).error is None ==> {
                let top = old(self).top as int;
                &&& query.len == query_rows * MODEL_DIM && query.inside(top)
                &&& query_pos.len == query_rows * MODEL_DIM && query_pos.inside(top)
                &&& key.len == key_rows * MODEL_DIM && key.inside(top)
                &&& key_pos.len == key_rows * MODEL_DIM && key_pos.inside(top)
                &&& value.len == key_rows * MODEL_DIM && value.inside(top)
            },
        ensures
            (final(self)@, r) == old(self)@.attention(
                query,
                query_pos,
                key,
                key_pos,
                value,
                query_rows as int,
                key_rows as int,
                prefix@,
                module,
            ),
            final(self).wf(),
            final(self).roomy(old(self), query_rows * 1536 + key_rows * 1025),
            final(self).follows(old(self)),
            final(self).top >= old(self).top,
            r.len == query_rows * MODEL_DIM,
            final(self).error is None ==> r.offset >= old(self).top && r.inside(
                final(self).len as int,
            ),
    {
        reveal(PlanView::attention);
        let d: usize = MODEL_DIM;
        let dotted: Vec<u8> = name_of(prefix, ".");
        let stem: Vec<u8> = name_of(dotted.as_slice(), module);
        let base: &[u8] = stem.as_slice();
        let context: Buffer = self.attend(
            query,
            query_pos,
            key,
            key_pos,
            value,
            query_rows,
            key_rows,
            base,
        );
        let output: Buffer = self.take_floats(query_rows * d);
        let out_weight: Weight = self.weight2(name_of(base, ".out_proj.weight").as_slice(), d, d);
        let out_bias: Weight = self.weight1(name_of(base, ".out_proj.bias").as_slice(), d);
        self.linear(
            Operand::Buffer(context),
            query_rows,
            d,
            out_weight,
            out_bias,
            Operand::Buffer(output),
            d,
        );
        output
    }

    #[verifier::rlimit(40)]
    fn feed_forward(&mut self, x: Buffer, rows: usize, prefix: &[u8], norm: &str, mark: usize)
        requires
            old(self).wf(),
            rows <= ENCODER_TOKENS,
            mark <= old(self).top,
            old(self).error is None ==> x.len == rows * MODEL_DIM && x.inside(
                old(self).top as int,
            ),
        ensures
            final(self)@ == old(self)@.feed_forward(x, rows as int, prefix@, norm, mark as int),
            final(self).wf(),
            final(self).roomy(old(self), rows * 3712),
            final(self).follows(old(self)),
            final(self).top == mark,
    {
        reveal(PlanView::feed_forward);
        let d: usize = MODEL_DIM;
        let f: usize = FF_DIM;
        let hidden: Buffer = self.take_floats(rows * f);
        let weight: Weight = self.weight2(name_of(prefix, ".linear1.weight").as_slice(), f, d);
        let bias: Weight = self.weight1(name_of(prefix, ".linear1.bias").as_slice(), f);
        self.linear(Operand::Buffer(x), rows, d, weight, bias, Operand::Buffer(hidden), f);
        self.push(Step::Relu { buffer: hidden });
        let output: Buffer = self.take_floats(rows * d);
        let weight: Weight = self.weight2(name_of(prefix, ".linear2.weight").as_slice(), d, f);
        let bias: Weight = self.weight1(name_of(prefix, ".linear2.bias").as_slice(), d);
        self.linear(Operand::Buffer(hidden), rows, f, weight, bias, Operand::Buffer(output), d);
        let dotted: Vec<u8> = name_of(prefix, ".");
        self.add_norm(x, output, rows, name_of(dotted.as_slice(), norm).as_slice());
        self.reset(mark);
    }
}


impl<'m, 'a> Planner<'m, 'a> {
    fn encoder_layer(&mut self, x: Buffer, pos: Buffer, prefix: &[u8], mark: usize)
        requires
            old(self).wf(),
            mark == old(self).top,
            old(self).error is None ==> {
                &&& x.len == ENCODER_TOKENS * MODEL_DIM && x.inside(mark as int)
                &&& pos.len == ENCODER_TOKENS * MODEL_DIM && pos.inside(mark as int)
            },
        ensures
            final(self)@ == old(self)@.encoder_layer(x, pos, prefix@, mark as int),
            final(self).wf(),
            final(self).roomy(old(self), 1_789_184),
            final(self).follows(old(self)),
            final(self).top == mark,
    {
        reveal(PlanView::encoder_layer);
        let n: usize = ENCODER_TOKENS;
        let attention: Buffer = self.attention(x, pos, x, pos, x, n, n, prefix, "self_attn");
        self.add_norm(x, attention, n, name_of(prefix, ".norm1").as_slice());
        self.reset(mark);
        self.feed_forward(x, n, prefix, "norm2", mark);
    }

    fn decoder_layer(
        &mut self,
        x: Buffer,
        x_pos: Buffer,
        encoder: Buffer,
        encoder_pos: Buffer,
        mark: usize,
    )
        requires
            old(self).wf(),
            mark == old(self).top,
            old(self).error is None ==> {
                &&& x.len == ACTION_STEPS * MODEL_DIM && x.inside(mark as int)
                &&& x_pos.len == ACTION_STEPS * MODEL_DIM && x_pos.inside(mark as int)
                &&& encoder.len == ENCODER_TOKENS * MODEL_DIM && encoder.inside(mark as int)
                &&& encoder_pos.len == ENCODER_TOKENS * MODEL_DIM && encoder_pos.inside(
                    mark as int,
                )
            },
        ensures
            final(self)@ == old(self)@.decoder_layer(
                x,
                x_pos,
                encoder,
                encoder_pos,
                mark as int,
            ),
            final(self).wf(),
            final(self).roomy(old(self), 1_789_184),
            final(self).follows(old(self)),
            final(self).top == mark,
    {
        reveal(PlanView::decoder_layer);
        let prefix: &[u8] = "model.decoder.layers.0".as_bytes();
        let n: usize = ACTION_STEPS;
        let own: Buffer = self.attention(x, x_pos, x, x_pos, x, n, n, prefix, "self_attn");
        self.add_norm(x, own, n, name_of(prefix, ".norm1").as_slice());
        self.reset(mark);
        let cross: Buffer = self.attention(
            x,
            x_pos,
            encoder,
            encoder_pos,
            encoder,
            n,
            ENCODER_TOKENS,
            prefix,
            "multihead_attn",
        );
        self.add_norm(x, cross, n, name_of(prefix, ".norm2").as_slice());
        self.reset(mark);
        self.feed_forward(x, n, prefix, "norm3", mark);
    }

    fn prepare_scalar_tokens(&mut self, encoder: Buffer, encoder_pos: Buffer)
        requires
            old(self).wf(),
            encoder.len == ENCODER_TOKENS * MODEL_DIM && encoder.fits(),
            encoder_pos.len == ENCODER_TOKENS * MODEL_DIM && encoder_pos.fits(),
            old(self).error is None ==> encoder.inside(old(self).len as int)
                && encoder_pos.inside(old(self).len as int),
        ensures
            final(self)@ == old(self)@.prepare_scalar_tokens(encoder, encoder_pos),
            final(self).wf(),
            final(self).roomy(old(self), 0),
            final(self).follows(old(self)),
            final(self).top == old(self).top,
    {
        reveal(PlanView::prepare_scalar_tokens);
        let d: usize = MODEL_DIM;
        let latent: Weight = self.weight1("model.encoder_latent_input_proj.bias".as_bytes(), d);
        self.push(Step::CopyWeight { weight: latent, to: encoder.sub(0, d) });
        let weight: Weight = self.weight2(
            "model.encoder_robot_state_input_proj.weight".as_bytes(),
            d,
            STATE_DIM,
        );
        let bias: Weight = self.weight1(
            "model.encoder_robot_state_input_proj.bias".as_bytes(),
            d,
        );
        self.linear(
            Operand::State,
            1,
            STATE_DIM,
            weight,
            bias,
            Operand::Buffer(encoder.sub(d, d)),
            d,
        );
        let pos: Weight = self.weight2(
            "model.encoder_1d_feature_pos_embed.weight".as_bytes(),
            2,
            d,
        );
        self.push(Step::CopyWeight { weight: pos, to: encoder_pos.sub(0, 2 * d) });
    }

    fn action_head(&mut self, decoder: Buffer)
        requires
            old(self).wf(),
            old(self).error is None ==> decoder.len == ACTION_STEPS * MODEL_DIM && decoder.inside(
                old(self).len as int,
            ),
        ensures
            final(self)@ == old(self)@.action_head(decoder),
            final(self).wf(),
            final(self).roomy(old(self), 0),
            final(self).follows(old(self)),
            final(self).top == old(self).top,
    {
        reveal(PlanView::action_head);
        let d: usize = MODEL_DIM;
        let weight: Weight = self.weight1("model.decoder.norm.weight".as_bytes(), d);
        let bias: Weight = self.weight1("model.decoder.norm.bias".as_bytes(), d);
        self.push(Step::LayerNorm { buffer: decoder, rows: ACTION_STEPS, weight, bias });
        let weight: Weight = self.weight2("model.action_head.weight".as_bytes(), ACTION_DIM, d);
        let bias: Weight = self.weight1("model.action_head.bias".as_bytes(), ACTION_DIM);
        self.linear(
            Operand::Buffer(decoder),
            ACTION_STEPS,
            d,
            weight,
            bias,
            Operand::Actions,
            ACTION_DIM,
        );
        self.push(Step::DenormalizeActions);
        self.push(Step::Done(InferenceStage::ActionHead));
    }

    fn encoder_layers(&mut self, x: Buffer, pos: Buffer, mark: usize)
        requires
            old(self).wf(),
            mark == old(self).top,
            old(self).error is None ==> {
                &&& x.len == ENCODER_TOKENS * MODEL_DIM && x.inside(mark as int)
                &&& pos.len == ENCODER_TOKENS * MODEL_DIM && pos.inside(mark as int)
            },
        ensures
            final(self)@ == old(self)@.encoder_layers(0, x, pos, mark as int),
            final(self).wf(),
            final(self).roomy(old(self), 1_789_184),
            final(self).follows(old(self)),
            final(self).top == mark,
    {
        let ghost start = *self;
        let mut i: usize = 0;
        while i < 4
            invariant
                i <= 4,
                self.wf(),
                self.follows(&start),
                self.roomy(&start, 1_789_184),
                self.top == mark == start.top,
                self.error is None ==> {
                    &&& x.len == ENCODER_TOKENS * MODEL_DIM && x.inside(mark as int)
                    &&& pos.len == ENCODER_TOKENS * MODEL_DIM && pos.inside(mark as int)
                },
                start@.encoder_layers(0, x, pos, mark as int) == self@.encoder_layers(
                    i as int,
                    x,
                    pos,
                    mark as int,
                ),
            decreases 4 - i,
        {
            let prefix: &str = match i {
                0 => "model.encoder.layers.0",
                1 => "model.encoder.layers.1",
                2 => "model.encoder.layers.2",
                _ => "model.encoder.layers.3",
            };
            self.encoder_layer(x, pos, prefix.as_bytes(), mark);
            self.push(Step::Done(InferenceStage::EncoderLayer { layer: i as u8 }));
            i = i + 1;
        }
    }

    /// Lays out a whole pass. With a workspace that is large enough, only a weight can be amiss.
    pub fn predict(&mut self)
        requires
            old(self).wf(),
            old(self).error is None,
            old(self).top == 0,
        ensures
            final(self)@ == old(self)@.predict(),
            final(self).wf(),
            final(self).follows(old(self)),
            old(self).len >= WORKSPACE_FLOATS ==> final(self).error != Some(
                Error::WorkspaceTooSmall,
            ),
    {
        if self.len < WORKSPACE_FLOATS {
            self.fail(Error::WorkspaceTooSmall);
            return ;
        }
        let d: usize = MODEL_DIM;
        let encoder: Buffer = self.take_floats(ENCODER_TOKENS * d);
        let encoder_pos: Buffer = self.take_floats(ENCODER_TOKENS * d);
        let decoder: Buffer = self.take_floats(ACTION_STEPS * d);
        let decoder_pos: Buffer = self.take_floats(ACTION_STEPS * d);
        self.prepare_scalar_tokens(encoder, encoder_pos);
        let weight: Weight = self.weight2(
            "model.decoder_pos_embed.weight".as_bytes(),
            ACTION_STEPS,
            d,
        );
        self.push(Step::CopyWeight { weight, to: decoder_pos });
        self.push(Step::Zero { to: decoder });
        self.push(Step::Done(InferenceStage::InputPrepared));
        let mark: usize = self.top;
        self.encode_camera(encoder, encoder_pos, 2, 0);
        self.reset(mark);
        self.encode_camera(encoder, encoder_pos, 2 + IMAGE_TOKENS, 1);
        self.reset(mark);
        self.encoder_layers(encoder, encoder_pos, mark);
        self.decoder_layer(decoder, decoder_pos, encoder, encoder_pos, mark);
        self.push(Step::Done(InferenceStage::Decoder));
        self.action_head(decoder);
    }
}

} // verus!
