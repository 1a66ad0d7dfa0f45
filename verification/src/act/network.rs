//! The network that a pass computes, without buffers: which floats come of which, through which
//! layers and with which weights. Running the steps of a pass, whatever buffers they use, comes to
//! this.
use crate::act::plan::{self, found, text, BlockSpec, Buffer, Conv, Operand, Step, Weight};
use vstd::prelude::*;

verus! {

/// A layer, with its shape and its weights.
pub enum Layer {
    Conv { conv: Conv, weight: Weight },
    BatchNorm {
        pixels: int,
        channels: int,
        weight: Weight,
        bias: Weight,
        mean: Weight,
        variance: Weight,
        relu: bool,
    },
    MaxPool { height: int, width: int, channels: int },
    AddRelu,
    Linear { rows: int, input_dim: int, output_dim: int, weight: Weight, bias: Weight },
    LinearSum { rows: int, weight: Weight, bias: Weight },
    Attention { query_rows: int, key_rows: int },
    AddLayerNorm { rows: int, weight: Weight, bias: Weight },
    LayerNorm { rows: int, weight: Weight, bias: Weight },
    Relu,
    Denormalize,
}

/// Where a float comes from.
pub enum Value {
    /// Nobody wrote it.
    Unset,
    /// It is left over from the inside of a layer.
    Scratch,
    Zero,
    /// It is in the model file, at this byte.
    Stored { byte: int },
    /// It is a float of the robot's state.
    State { k: int },
    /// It is a float of a camera's image.
    Image { camera: u8, k: int },
    /// It is a float of the positions of an image's tokens.
    Position { k: int },
    /// It is float `k` of what a layer makes of its inputs.
    Made { layer: Layer, inputs: Seq<Seq<Value>>, k: int },
}

/// The floats that a layer makes of its inputs.
pub open spec fn made(layer: Layer, inputs: Seq<Seq<Value>>, n: int) -> Seq<Value> {
    Seq::new(n as nat, |k: int| Value::Made { layer, inputs, k })
}

/// The floats of a weight.
pub open spec fn stored(weight: Weight, n: int) -> Seq<Value> {
    Seq::new(n as nat, |k: int| Value::Stored { byte: weight.offset + 4 * k })
}

/// A workspace while a pass runs, and the actions.
pub struct Run {
    pub floats: Seq<Value>,
    pub actions: Seq<Value>,
}

impl Run {
    pub open spec fn get(self, b: Buffer) -> Seq<Value> {
        self.floats.subrange(b.offset as int, b.offset + b.len)
    }

    pub open spec fn put(self, b: Buffer, values: Seq<Value>) -> Run {
        Run {
            floats: Seq::new(
                self.floats.len(),
                |i: int|
                    if b.offset <= i < b.offset + b.len {
                        values[i - b.offset]
                    } else {
                        self.floats[i]
                    },
            ),
            ..self
        }
    }

    pub open spec fn scratched(self, b: Buffer) -> Run {
        self.put(b, Seq::new(b.len as nat, |k: int| Value::Scratch))
    }

    pub open spec fn operand(self, operand: Operand) -> Seq<Value> {
        match operand {
            Operand::Buffer(b) => self.get(b),
            Operand::State => Seq::new(6, |k: int| Value::State { k }),
            Operand::Actions => self.actions,
        }
    }

    /// What one step leaves.
    pub open spec fn after(self, step: Step) -> Run {
        match step {
            Step::CopyWeight { weight, to } => self.put(to, stored(weight, to.len as int)),
            Step::Zero { to } => self.put(to, Seq::new(to.len as nat, |k: int| Value::Zero)),
            Step::NormalizeImage { camera, to } => self.put(
                to,
                Seq::new(to.len as nat, |k: int| Value::Image { camera, k }),
            ),
            Step::Conv { conv, input, weight, output, im2col } => self.scratched(im2col).put(
                output,
                made(Layer::Conv { conv, weight }, seq![self.get(input)], output.len as int),
            ),
            Step::BatchNorm { buffer, pixels, channels, weight, bias, mean, variance, relu } =>
                self.put(
                    buffer,
                    made(
                        Layer::BatchNorm {
                            pixels: pixels as int,
                            channels: channels as int,
                            weight,
                            bias,
                            mean,
                            variance,
                            relu,
                        },
                        seq![self.get(buffer)],
                        buffer.len as int,
                    ),
                ),
            Step::MaxPool { input, input_h, input_w, channels, output } => self.put(
                output,
                made(
                    Layer::MaxPool {
                        height: input_h as int,
                        width: input_w as int,
                        channels: channels as int,
                    },
                    seq![self.get(input)],
                    output.len as int,
                ),
            ),
            Step::AddRelu { output, shortcut } => self.put(
                output,
                made(
                    Layer::AddRelu,
                    seq![self.get(output), self.get(shortcut)],
                    output.len as int,
                ),
            ),
            Step::Linear { input, rows, input_dim, weight, bias, output, output_dim } => {
                let values = made(
                    Layer::Linear {
                        rows: rows as int,
                        input_dim: input_dim as int,
                        output_dim: output_dim as int,
                        weight,
                        bias,
                    },
                    seq![self.operand(input)],
                    rows * output_dim,
                );
                match output {
                    Operand::Buffer(b) => self.put(b, values),
                    _ => Run { actions: values, ..self },
                }
            },
            Step::LinearSum { input, position, rows, weight, bias, output } => self.put(
                output,
                made(
                    Layer::LinearSum { rows: rows as int, weight, bias },
                    seq![self.get(input), self.get(position)],
                    output.len as int,
                ),
            ),
            Step::Attention { query, key, value, query_rows, key_rows, scores, output } =>
                self.scratched(scores).put(
                    output,
                    made(
                        Layer::Attention {
                            query_rows: query_rows as int,
                            key_rows: key_rows as int,
                        },
                        seq![self.get(query), self.get(key), self.get(value)],
                        output.len as int,
                    ),
                ),
            Step::AddLayerNorm { to, addition, rows, weight, bias } => self.put(
                to,
                made(
                    Layer::AddLayerNorm { rows: rows as int, weight, bias },
                    seq![self.get(to), self.get(addition)],
                    to.len as int,
                ),
            ),
            Step::LayerNorm { buffer, rows, weight, bias } => self.put(
                buffer,
                made(
                    Layer::LayerNorm { rows: rows as int, weight, bias },
                    seq![self.get(buffer)],
                    buffer.len as int,
                ),
            ),
            Step::Relu { buffer } => self.put(
                buffer,
                made(Layer::Relu, seq![self.get(buffer)], buffer.len as int),
            ),
            Step::Position { to } => self.put(
                to,
                Seq::new(to.len as nat, |k: int| Value::Position { k }),
            ),
            Step::DenormalizeActions => Run {
                actions: made(Layer::Denormalize, seq![self.actions], self.actions.len() as int),
                ..self
            },
            Step::Done(_) => self,
        }
    }

    pub open spec fn after_all(self, steps: Seq<Step>) -> Run
        decreases steps.len(),
    {
        if steps.len() == 0 {
            self
        } else {
            self.after_all(steps.drop_last()).after(steps.last())
        }
    }
}

/// A workspace that nobody wrote yet.
pub open spec fn fresh(len: int) -> Run {
    Run { floats: Seq::new(len as nat, |i: int| Value::Unset), actions: Seq::empty() }
}

/// A model file and where it is.
pub struct Model {
    pub file: Seq<u8>,
    pub address: int,
}

impl Model {
    /// The weights of a name and a shape.
    pub open spec fn weight(self, name: Seq<u8>, shape: Seq<int>) -> Weight {
        found(self.file, self.address, name, shape)->Ok_0
    }

    pub open spec fn linear(
        self,
        x: Seq<Value>,
        rows: int,
        input_dim: int,
        output_dim: int,
        weight: Weight,
        bias: Weight,
    ) -> Seq<Value> {
        made(
            Layer::Linear { rows, input_dim, output_dim, weight, bias },
            seq![x],
            rows * output_dim,
        )
    }

    /// A convolution and the normalization of its channels.
    #[verifier::opaque]
    pub open spec fn conv_norm(
        self,
        x: Seq<Value>,
        conv: Conv,
        weight_name: Seq<u8>,
        norm: Seq<u8>,
        n: int,
        relu: bool,
    ) -> Seq<Value> {
        let c = conv.output_c as int;
        let shape = seq![c, conv.input_c as int, conv.kernel as int, conv.kernel as int];
        let y = made(Layer::Conv { conv, weight: self.weight(weight_name, shape) }, seq![x], n);
        made(
            Layer::BatchNorm {
                pixels: conv.rows(),
                channels: c,
                weight: self.weight(norm + text(".weight"), seq![c]),
                bias: self.weight(norm + text(".bias"), seq![c]),
                mean: self.weight(norm + text(".running_mean"), seq![c]),
                variance: self.weight(norm + text(".running_var"), seq![c]),
                relu,
            },
            seq![y],
            n,
        )
    }

    /// A block of two convolutions; its input is added back in, or what a convolution of its own
    /// makes of it where the shape changes.
    #[verifier::opaque]
    pub open spec fn block(self, x: Seq<Value>, height: int, width: int, block: BlockSpec) -> Seq<
        Value,
    > {
        let h = plan::div_up(height, block.stride as int);
        let w = plan::div_up(width, block.stride as int);
        let n = h * w * block.out_channels;
        let base = text("model.backbone.") + text(block.name);
        let y = self.conv_norm(
            x,
            block.first(height, width),
            base + text(".conv1.weight"),
            base + text(".bn1"),
            n,
            true,
        );
        let z = self.conv_norm(
            y,
            block.second(h, w),
            base + text(".conv2.weight"),
            base + text(".bn2"),
            n,
            false,
        );
        let shortcut = if block.downsample {
            self.conv_norm(
                x,
                block.shortcut(height, width),
                base + text(".downsample.0.weight"),
                base + text(".downsample.1"),
                n,
                false,
            )
        } else {
            x
        };
        made(Layer::AddRelu, seq![z, shortcut], n)
    }

    /// The blocks from block `i` on.
    #[verifier::opaque]
    pub open spec fn blocks(self, x: Seq<Value>, i: int, height: int, width: int) -> Seq<Value>
        decreases 8 - i,
    {
        if i >= 8 {
            x
        } else {
            let block = plan::block_at(i);
            self.blocks(
                self.block(x, height, width, block),
                i + 1,
                plan::div_up(height, block.stride as int),
                plan::div_up(width, block.stride as int),
            )
        }
    }

    /// The 240 tokens of an image of 360 by 640 pixels.
    #[verifier::opaque]
    pub open spec fn image_tokens(self, camera: u8) -> Seq<Value> {
        let image = Seq::new(691_200, |k: int| Value::Image { camera, k });
        let x = self.conv_norm(
            image,
            plan::stem(),
            text("model.backbone.conv1.weight"),
            text("model.backbone.bn1"),
            3_686_400,
            true,
        );
        let pooled = made(
            Layer::MaxPool { height: 180, width: 320, channels: 64 },
            seq![x],
            921_600,
        );
        self.linear(
            self.blocks(pooled, 0, 90, 160),
            240,
            512,
            512,
            self.weight(
                text("model.encoder_img_feat_input_proj.weight"),
                seq![512int, 512, 1, 1],
            ),
            self.weight(text("model.encoder_img_feat_input_proj.bias"), seq![512int]),
        )
    }

    /// Attention of `x` to `y`, each with its positions; the values of `y` go in without them.
    #[verifier::opaque]
    pub open spec fn attention(
        self,
        x: Seq<Value>,
        x_pos: Seq<Value>,
        y: Seq<Value>,
        y_pos: Seq<Value>,
        rows: int,
        y_rows: int,
        name: Seq<u8>,
    ) -> Seq<Value> {
        let w = self.weight(name + text(".in_proj_weight"), seq![1536int, 512]);
        let b = self.weight(name + text(".in_proj_bias"), seq![1536int]);
        let q = made(
            Layer::LinearSum { rows, weight: w.piece(0, 262_144), bias: b.piece(0, 512) },
            seq![x, x_pos],
            rows * 512,
        );
        let k = made(
            Layer::LinearSum { rows: y_rows, weight: w.piece(262_144, 262_144), bias: b.piece(512, 512) },
            seq![y, y_pos],
            y_rows * 512,
        );
        let v = self.linear(
            y,
            y_rows,
            512,
            512,
            w.piece(524_288, 262_144),
            b.piece(1024, 512),
        );
        let context = made(
            Layer::Attention { query_rows: rows, key_rows: y_rows },
            seq![q, k, v],
            rows * 512,
        );
        self.linear(
            context,
            rows,
            512,
            512,
            self.weight(name + text(".out_proj.weight"), seq![512int, 512]),
            self.weight(name + text(".out_proj.bias"), seq![512int]),
        )
    }

    /// `x` with `y` added, its rows normalized.
    #[verifier::opaque]
    pub open spec fn add_norm(self, x: Seq<Value>, y: Seq<Value>, rows: int, name: Seq<u8>) -> Seq<
        Value,
    > {
        made(
            Layer::AddLayerNorm {
                rows,
                weight: self.weight(name + text(".weight"), seq![512int]),
                bias: self.weight(name + text(".bias"), seq![512int]),
            },
            seq![x, y],
            rows * 512,
        )
    }

    /// Two linear layers with a rectifier between them, added back in.
    #[verifier::opaque]
    pub open spec fn feed_forward(self, x: Seq<Value>, rows: int, name: Seq<u8>, norm: Seq<u8>)
        -> Seq<Value> {
        let hidden = self.linear(
            x,
            rows,
            512,
            3200,
            self.weight(name + text(".linear1.weight"), seq![3200int, 512]),
            self.weight(name + text(".linear1.bias"), seq![3200int]),
        );
        let rectified = made(Layer::Relu, seq![hidden], rows * 3200);
        let y = self.linear(
            rectified,
            rows,
            3200,
            512,
            self.weight(name + text(".linear2.weight"), seq![512int, 3200]),
            self.weight(name + text(".linear2.bias"), seq![512int]),
        );
        self.add_norm(x, y, rows, norm)
    }

    #[verifier::opaque]
    pub open spec fn encoder_layer(self, x: Seq<Value>, pos: Seq<Value>, name: Seq<u8>) -> Seq<
        Value,
    > {
        let a = self.attention(x, pos, x, pos, 482, 482, name + text(".") + text("self_attn"));
        let y = self.add_norm(x, a, 482, name + text(".norm1"));
        self.feed_forward(y, 482, name, name + text(".") + text("norm2"))
    }

    /// The encoder's layers from layer `i` on.
    #[verifier::opaque]
    pub open spec fn encoder(self, x: Seq<Value>, pos: Seq<Value>, i: int) -> Seq<Value>
        decreases 4 - i,
    {
        if i >= 4 {
            x
        } else {
            self.encoder(
                self.encoder_layer(x, pos, text(plan::encoder_prefix(i))),
                pos,
                i + 1,
            )
        }
    }

    #[verifier::opaque]
    pub open spec fn decoder(
        self,
        x: Seq<Value>,
        x_pos: Seq<Value>,
        y: Seq<Value>,
        y_pos: Seq<Value>,
    ) -> Seq<Value> {
        let name = text("model.decoder.layers.0");
        let own = self.attention(
            x,
            x_pos,
            x,
            x_pos,
            100,
            100,
            name + text(".") + text("self_attn"),
        );
        let x1 = self.add_norm(x, own, 100, name + text(".norm1"));
        let cross = self.attention(
            x1,
            x_pos,
            y,
            y_pos,
            100,
            482,
            name + text(".") + text("multihead_attn"),
        );
        let x2 = self.add_norm(x1, cross, 100, name + text(".norm2"));
        self.feed_forward(x2, 100, name, name + text(".") + text("norm3"))
    }

    /// What goes into the encoder: the latent, the state, and the tokens of both images.
    #[verifier::opaque]
    pub open spec fn tokens(self) -> Seq<Value> {
        stored(self.weight(text("model.encoder_latent_input_proj.bias"), seq![512int]), 512)
            + self.linear(
            Seq::new(6, |k: int| Value::State { k }),
            1,
            6,
            512,
            self.weight(
                text("model.encoder_robot_state_input_proj.weight"),
                seq![512int, 6],
            ),
            self.weight(text("model.encoder_robot_state_input_proj.bias"), seq![512int]),
        ) + self.image_tokens(0) + self.image_tokens(1)
    }

    /// The positions of these tokens.
    #[verifier::opaque]
    pub open spec fn positions(self) -> Seq<Value> {
        let image = Seq::new(122_880, |k: int| Value::Position { k });
        stored(
            self.weight(text("model.encoder_1d_feature_pos_embed.weight"), seq![2int, 512]),
            1024,
        ) + image + image
    }

    /// The hundred actions.
    pub open spec fn actions(self) -> Seq<Value> {
        let y = self.encoder(self.tokens(), self.positions(), 0);
        let x = self.decoder(
            Seq::new(51_200, |k: int| Value::Zero),
            stored(
                self.weight(text("model.decoder_pos_embed.weight"), seq![100int, 512]),
                51_200,
            ),
            y,
            self.positions(),
        );
        let normalized = made(
            Layer::LayerNorm {
                rows: 100,
                weight: self.weight(text("model.decoder.norm.weight"), seq![512int]),
                bias: self.weight(text("model.decoder.norm.bias"), seq![512int]),
            },
            seq![x],
            51_200,
        );
        let raw = self.linear(
            normalized,
            100,
            512,
            6,
            self.weight(text("model.action_head.weight"), seq![6int, 512]),
            self.weight(text("model.action_head.bias"), seq![6int]),
        );
        made(Layer::Denormalize, seq![raw], 600)
    }
}

} // verus!
