//! What holds of the steps of a whole pass, wherever the planner got them from.
use crate::act::plan::{self, found, text, Buffer, InferenceStage, Operand, PlanView, Step, Weight};
use vstd::prelude::*;

verus! {

/// A step writes into a buffer, if only into a part of it.
pub open spec fn writes_into(step: Step, b: Buffer) -> bool {
    match step {
        Step::CopyWeight { weight, to } => !to.apart(b),
        Step::Zero { to } => !to.apart(b),
        Step::NormalizeImage { camera, to } => !to.apart(b),
        Step::Conv { conv, input, weight, output, im2col } => !output.apart(b) || !im2col.apart(b),
        Step::BatchNorm { buffer, pixels, channels, weight, bias, mean, variance, relu } =>
            !buffer.apart(b),
        Step::MaxPool { input, input_h, input_w, channels, output } => !output.apart(b),
        Step::AddRelu { output, shortcut } => !output.apart(b),
        Step::Linear { input, rows, input_dim, weight, bias, output, output_dim } =>
            !output.apart(Operand::Buffer(b)),
        Step::LinearSum { input, position, rows, weight, bias, output } => !output.apart(b),
        Step::Attention { query, key, value, query_rows, key_rows, scores, output } =>
            !output.apart(b) || !scores.apart(b),
        Step::AddLayerNorm { to, addition, rows, weight, bias } => !to.apart(b),
        Step::LayerNorm { buffer, rows, weight, bias } => !buffer.apart(b),
        Step::Relu { buffer } => !buffer.apart(b),
        Step::Position { to } => !to.apart(b),
        Step::DenormalizeActions => false,
        Step::Done(_) => false,
    }
}

/// What step `i` finds in buffer `b` is the product of `weight` and `bias` with rows of 512 floats:
/// step `by` made it, and none in between wrote into the buffer.
pub open spec fn projected_by(
    steps: Seq<Step>,
    i: int,
    b: Buffer,
    by: int,
    weight: Weight,
    bias: Weight,
) -> bool {
    &&& 0 <= by < i
    &&& match steps[by] {
        Step::LinearSum { input, position, rows, weight: w, bias: s, output } => output == b && w
            == weight && s == bias,
        Step::Linear { input, rows, input_dim, weight: w, bias: s, output, output_dim } => output
            == Operand::Buffer(b) && w == weight && s == bias && input_dim == 512 && output_dim
            == 512,
        _ => false,
    }
    &&& forall|j: int| by < j < i ==> !writes_into(#[trigger] steps[j], b)
}

/// Part `k` of three equal parts of a tensor, each of `n` floats of four bytes.
pub open spec fn third(part: Weight, whole: Weight, k: int, n: int) -> bool {
    &&& whole.len == 3 * n
    &&& part.len == n
    &&& part.offset == whole.offset + 4 * n * k
}

/// The three steps before step `i` project its queries, keys and values, each with its own third of
/// the weights and of the biases.
pub open spec fn fed_by_thirds(
    steps: Seq<Step>,
    i: int,
    inputs: (Buffer, Buffer, Buffer),
    whole: (Weight, Weight),
    query: (Weight, Weight),
    key: (Weight, Weight),
    value: (Weight, Weight),
) -> bool {
    &&& third(query.0, whole.0, 0, 262_144) && third(query.1, whole.1, 0, 512)
    &&& third(key.0, whole.0, 1, 262_144) && third(key.1, whole.1, 1, 512)
    &&& third(value.0, whole.0, 2, 262_144) && third(value.1, whole.1, 2, 512)
    &&& projected_by(steps, i, inputs.0, i - 3, query.0, query.1)
    &&& projected_by(steps, i, inputs.1, i - 2, key.0, key.1)
    &&& projected_by(steps, i, inputs.2, i - 1, value.0, value.1)
}

/// The attention in step `i` gets its queries, keys and values from the first, the second and the
/// third block of the projection of module `name`, and their biases alike.
pub open spec fn attends_with(
    file: Seq<u8>,
    address: int,
    steps: Seq<Step>,
    i: int,
    name: Seq<u8>,
) -> bool {
    let whole = found(file, address, name + text(".in_proj_weight"), seq![1536int, 512]);
    let sums = found(file, address, name + text(".in_proj_bias"), seq![1536int]);
    &&& whole is Ok
    &&& sums is Ok
    &&& steps[i] is Attention
    &&& exists|query: (Weight, Weight), key: (Weight, Weight), value: (Weight, Weight)|
        #[trigger] fed_by_thirds(
            steps,
            i,
            (steps[i]->query, steps[i]->key, steps[i]->value),
            (whole->Ok_0, sums->Ok_0),
            query,
            key,
            value,
        )
}

/// How many of the first `i` steps are attentions.
pub open spec fn attentions(steps: Seq<Step>, i: int) -> int
    decreases i,
{
    if i <= 0 {
        0
    } else {
        attentions(steps, i - 1) + if steps[i - 1] is Attention {
            1int
        } else {
            0
        }
    }
}

/// The modules that attend, in the order in which they do: four layers of the encoder to
/// themselves, the decoder to itself, and the decoder to the encoder.
pub open spec fn attending_module(k: int) -> Seq<u8> {
    if k == 0 {
        text("model.encoder.layers.0") + text(".") + text("self_attn")
    } else if k == 1 {
        text("model.encoder.layers.1") + text(".") + text("self_attn")
    } else if k == 2 {
        text("model.encoder.layers.2") + text(".") + text("self_attn")
    } else if k == 3 {
        text("model.encoder.layers.3") + text(".") + text("self_attn")
    } else if k == 4 {
        text("model.decoder.layers.0") + text(".") + text("self_attn")
    } else {
        text("model.decoder.layers.0") + text(".") + text("multihead_attn")
    }
}

/// As far as the pass is laid out, with `n` attentions, each attends with the weights of its own
/// module.
spec fn attending(p: PlanView, n: int) -> bool {
    p.error is None ==> {
        &&& attentions(p.steps, p.steps.len() as int) == n
        &&& forall|i: int|
            0 <= i < p.steps.len() && #[trigger] p.steps[i] is Attention ==> attends_with(
                p.file,
                p.address,
                p.steps,
                i,
                attending_module(attentions(p.steps, i)),
            )
    }
}

/// From `p` to `q` steps were added, of which none is an attention.
spec fn quiet(p: PlanView, q: PlanView) -> bool {
    &&& q.file == p.file
    &&& q.address == p.address
    &&& q.len == p.len
    &&& q.provider == p.provider
    &&& q.error is None ==> {
        &&& p.error is None
        &&& p.steps.len() <= q.steps.len()
        &&& q.steps.take(p.steps.len() as int) == p.steps
        &&& forall|i: int| p.steps.len() <= i < q.steps.len() ==> !(#[trigger] q.steps[i]
            is Attention)
    }
}

proof fn lemma_quiet(p: PlanView, q: PlanView, r: PlanView)
    requires
        quiet(p, q),
        quiet(q, r),
    ensures
        quiet(p, r),
{
    if r.error is None {
        assert forall|i: int| p.steps.len() <= i < r.steps.len() implies !(#[trigger] r.steps[i]
            is Attention) by {
            if i < q.steps.len() {
                assert(r.steps.take(q.steps.len() as int)[i] == q.steps[i]);
            }
        }
        assert(r.steps.take(p.steps.len() as int) =~= p.steps) by {
            assert forall|i: int| 0 <= i < p.steps.len() implies r.steps[i] == p.steps[i] by {
                assert(r.steps.take(q.steps.len() as int)[i] == q.steps[i]);
                assert(q.steps.take(p.steps.len() as int)[i] == p.steps[i]);
            }
        }
    }
}

proof fn lemma_push(p: PlanView, step: Step)
    requires
        !(step is Attention),
    ensures
        quiet(p, p.push(step)),
{
    if p.error is None {
        assert(p.push(step).steps.take(p.steps.len() as int) =~= p.steps);
    } else {
        assert(p.steps.take(p.steps.len() as int) =~= p.steps);
    }
}

proof fn lemma_itself(p: PlanView)
    ensures
        quiet(p, p),
{
    assert(p.steps.take(p.steps.len() as int) =~= p.steps);
}

/// The small steps of planning add no attention.
proof fn lemma_small(p: PlanView)
    ensures
        forall|name: Seq<u8>, shape: Seq<int>| quiet(p, #[trigger] p.weight(name, shape).0),
        forall|n: int| quiet(p, #[trigger] p.take_floats(n).0),
        forall|n: int| quiet(p, #[trigger] p.reset(n)),
        forall|step: Step| !(step is Attention) ==> quiet(p, #[trigger] p.push(step)),
        forall|e: crate::act::Error| quiet(p, #[trigger] p.failed(e)),
{
    lemma_itself(p);
    assert forall|step: Step| !(step is Attention) implies quiet(p, #[trigger] p.push(step)) by {
        lemma_push(p, step);
    }
}

proof fn lemma_attentions_prefix(a: Seq<Step>, b: Seq<Step>, i: int)
    requires
        0 <= i <= a.len(),
        a.len() <= b.len(),
        b.take(a.len() as int) == a,
    ensures
        attentions(a, i) == attentions(b, i),
    decreases i,
{
    if i > 0 {
        lemma_attentions_prefix(a, b, i - 1);
        assert(b.take(a.len() as int)[i - 1] == a[i - 1]);
    }
}

proof fn lemma_no_more(b: Seq<Step>, from: int, to: int)
    requires
        0 <= from <= to <= b.len(),
        forall|i: int| from <= i < to ==> !(#[trigger] b[i] is Attention),
    ensures
        attentions(b, to) == attentions(b, from),
    decreases to - from,
{
    if from < to {
        lemma_no_more(b, from, to - 1);
    }
}

/// What an attention gets stays so when steps are added behind it.
proof fn lemma_attends_prefix(
    file: Seq<u8>,
    address: int,
    a: Seq<Step>,
    b: Seq<Step>,
    i: int,
    name: Seq<u8>,
)
    requires
        0 <= i < a.len() <= b.len(),
        b.take(a.len() as int) == a,
        a[i] is Attention,
        attends_with(file, address, a, i, name),
    ensures
        attends_with(file, address, b, i, name),
{
    assert forall|j: int| 0 <= j < a.len() implies #[trigger] b[j] == a[j] by {
        assert(b.take(a.len() as int)[j] == a[j]);
    }
    let whole = found(file, address, name + text(".in_proj_weight"), seq![1536int, 512]);
    let sums = found(file, address, name + text(".in_proj_bias"), seq![1536int]);
    let inputs = (a[i]->query, a[i]->key, a[i]->value);
    let (query, key, value) = choose|
        query: (Weight, Weight),
        key: (Weight, Weight),
        value: (Weight, Weight),
    |
        #[trigger] fed_by_thirds(
            a,
            i,
            inputs,
            (whole->Ok_0, sums->Ok_0),
            query,
            key,
            value,
        );
    assert(projected_by(b, i, inputs.0, i - 3, query.0, query.1));
    assert(projected_by(b, i, inputs.1, i - 2, key.0, key.1));
    assert(projected_by(b, i, inputs.2, i - 1, value.0, value.1));
    assert(fed_by_thirds(b, i, inputs, (whole->Ok_0, sums->Ok_0), query, key, value));
}

proof fn lemma_quiet_keeps(p: PlanView, q: PlanView, n: int)
    requires
        attending(p, n),
        quiet(p, q),
    ensures
        attending(q, n),
{
    if q.error is None {
        lemma_attentions_prefix(p.steps, q.steps, p.steps.len() as int);
        lemma_no_more(q.steps, p.steps.len() as int, q.steps.len() as int);
        assert forall|i: int| 0 <= i < q.steps.len() && #[trigger] q.steps[i]
            is Attention implies attends_with(
            q.file,
            q.address,
            q.steps,
            i,
            attending_module(attentions(q.steps, i)),
        ) by {
            assert(i < p.steps.len());
            assert(q.steps.take(p.steps.len() as int)[i] == p.steps[i]);
            lemma_attentions_prefix(p.steps, q.steps, i);
            lemma_attends_prefix(
                p.file,
                p.address,
                p.steps,
                q.steps,
                i,
                attending_module(attentions(p.steps, i)),
            );
        }
    }
}

proof fn lemma_linear(
    p: PlanView,
    input: Operand,
    rows: int,
    input_dim: int,
    weight: Weight,
    bias: Weight,
    output: Operand,
    output_dim: int,
)
    ensures
        quiet(p, p.linear(input, rows, input_dim, weight, bias, output, output_dim)),
{
    lemma_small(p);
}


proof fn lemma_conv_norm(
    p: PlanView,
    conv: plan::Conv,
    input: Buffer,
    weight_name: Seq<u8>,
    norm_name: Seq<u8>,
    output: Buffer,
    im2col: Buffer,
    relu: bool,
)
    ensures
        quiet(p, p.conv_norm(conv, input, weight_name, norm_name, output, im2col, relu)),
{
    reveal(PlanView::conv_norm);
    let (a, weight) = p.weight(
        weight_name,
        seq![
            conv.output_c as int,
            conv.input_c as int,
            conv.kernel as int,
            conv.kernel as int,
        ],
    );
    lemma_small(p);
    lemma_small(a);
    let b = a.conv2d(conv, input, weight, output, im2col);
    lemma_quiet(p, a, b);
    lemma_batch_norm(b, output, conv.rows(), conv.output_c as int, norm_name, relu);
    lemma_quiet(p, b, b.batch_norm(output, conv.rows(), conv.output_c as int, norm_name, relu));
}

proof fn lemma_batch_norm(
    p: PlanView,
    buffer: Buffer,
    pixels: int,
    channels: int,
    prefix: Seq<u8>,
    relu: bool,
)
    ensures
        quiet(p, p.batch_norm(buffer, pixels, channels, prefix, relu)),
{
    let (a, weight) = p.weight(prefix + text(".weight"), seq![channels]);
    let (b, bias) = a.weight(prefix + text(".bias"), seq![channels]);
    let (c, mean) = b.weight(prefix + text(".running_mean"), seq![channels]);
    let (d, variance) = c.weight(prefix + text(".running_var"), seq![channels]);
    lemma_small(p);
    lemma_small(a);
    lemma_small(b);
    lemma_small(c);
    lemma_small(d);
    lemma_quiet(p, a, b);
    lemma_quiet(p, b, c);
    lemma_quiet(p, c, d);
    lemma_quiet(p, d, p.batch_norm(buffer, pixels, channels, prefix, relu));
}

proof fn lemma_basic_block(
    p: PlanView,
    input: Buffer,
    height: int,
    width: int,
    a: Buffer,
    b: Buffer,
    c: Buffer,
    im2col: Buffer,
    block: plan::BlockSpec,
)
    ensures
        quiet(p, p.basic_block(input, height, width, a, b, c, im2col, block).0),
{
    lemma_small(p);
    let h = plan::div_up(height, block.stride as int);
    let w = plan::div_up(width, block.stride as int);
    let n = h * w * block.out_channels;
    let base = text("model.backbone.") + text(block.name);
    if let Some((temp, output)) = plan::free_pair(input, a, b, c) {
        let temp = temp.piece(0, n);
        let output = output.piece(0, n);
        let first = p.conv_norm(
            block.first(height, width),
            input,
            base + text(".conv1.weight"),
            base + text(".bn1"),
            temp,
            im2col,
            true,
        );
        lemma_conv_norm(
            p,
            block.first(height, width),
            input,
            base + text(".conv1.weight"),
            base + text(".bn1"),
            temp,
            im2col,
            true,
        );
        let second = first.conv_norm(
            block.second(h, w),
            temp,
            base + text(".conv2.weight"),
            base + text(".bn2"),
            output,
            im2col,
            false,
        );
        lemma_conv_norm(
            first,
            block.second(h, w),
            temp,
            base + text(".conv2.weight"),
            base + text(".bn2"),
            output,
            im2col,
            false,
        );
        lemma_quiet(p, first, second);
        lemma_small(second);
        if block.downsample {
            let third = second.conv_norm(
                block.shortcut(height, width),
                input,
                base + text(".downsample.0.weight"),
                base + text(".downsample.1"),
                temp,
                im2col,
                false,
            );
            lemma_conv_norm(
                second,
                block.shortcut(height, width),
                input,
                base + text(".downsample.0.weight"),
                base + text(".downsample.1"),
                temp,
                im2col,
                false,
            );
            lemma_quiet(p, second, third);
            lemma_small(third);
            lemma_quiet(p, third, third.push(Step::AddRelu { output, shortcut: temp }));
        } else {
            lemma_quiet(
                p,
                second,
                second.push(Step::AddRelu { output, shortcut: input.piece(0, n) }),
            );
        }
    }
}

proof fn lemma_blocks(
    p: PlanView,
    i: int,
    current: Buffer,
    height: int,
    width: int,
    a: Buffer,
    b: Buffer,
    c: Buffer,
    im2col: Buffer,
    camera: u8,
)
    ensures
        quiet(p, p.blocks(i, current, height, width, a, b, c, im2col, camera).0),
    decreases 8 - i,
{
    lemma_itself(p);
    if i < 8 {
        let block = plan::block_at(i);
        let (q, next) = p.basic_block(current, height, width, a, b, c, im2col, block);
        lemma_basic_block(p, current, height, width, a, b, c, im2col, block);
        lemma_small(q);
        let r = q.push(Step::Done(InferenceStage::CameraBlock { camera, block: i as u8 }));
        lemma_quiet(p, q, r);
        let h = plan::div_up(height, block.stride as int);
        let w = plan::div_up(width, block.stride as int);
        lemma_blocks(r, i + 1, next, h, w, a, b, c, im2col, camera);
        lemma_quiet(p, r, r.blocks(i + 1, next, h, w, a, b, c, im2col, camera).0);
    }
}

proof fn lemma_camera_stem(p: PlanView, camera: u8)
    ensures
        quiet(p, p.camera_stem(camera).0),
{
    reveal(PlanView::camera_stem);
    let (p1, normalized) = p.take_floats(plan::IMAGE_BYTES as int);
    let p2 = p1.push(Step::NormalizeImage { camera, to: normalized });
    let p3 = p2.push(Step::Done(InferenceStage::CameraNormalized { camera }));
    let (p4, conv1) = p3.take_floats(plan::STEM_FLOATS as int);
    let (p5, a) = p4.take_floats(plan::FEATURE_FLOATS as int);
    let (p6, b) = p5.take_floats(plan::FEATURE_FLOATS as int);
    let (p7, c) = p6.take_floats(plan::FEATURE_FLOATS as int);
    let (p8, im2col) = p7.take_floats(plan::UNFOLDED_FLOATS as int);
    let p9 = p8.conv_norm(
        plan::stem(),
        normalized,
        text("model.backbone.conv1.weight"),
        text("model.backbone.bn1"),
        conv1,
        im2col,
        true,
    );
    let p10 = p9.push(
        Step::MaxPool { input: conv1, input_h: 180, input_w: 320, channels: 64, output: a },
    );
    let p11 = p10.push(Step::Done(InferenceStage::CameraStem { camera }));
    lemma_small(p);
    lemma_small(p1);
    lemma_small(p2);
    lemma_small(p3);
    lemma_small(p4);
    lemma_small(p5);
    lemma_small(p6);
    lemma_small(p7);
    lemma_small(p9);
    lemma_small(p10);
    lemma_conv_norm(
        p8,
        plan::stem(),
        normalized,
        text("model.backbone.conv1.weight"),
        text("model.backbone.bn1"),
        conv1,
        im2col,
        true,
    );
    lemma_quiet(p, p1, p2);
    lemma_quiet(p, p2, p3);
    lemma_quiet(p, p3, p4);
    lemma_quiet(p, p4, p5);
    lemma_quiet(p, p5, p6);
    lemma_quiet(p, p6, p7);
    lemma_quiet(p, p7, p8);
    lemma_quiet(p, p8, p9);
    lemma_quiet(p, p9, p10);
    lemma_quiet(p, p10, p11);
}

proof fn lemma_encode_camera(
    p: PlanView,
    encoder: Buffer,
    encoder_pos: Buffer,
    token: int,
    camera: u8,
)
    ensures
        quiet(p, p.encode_camera(encoder, encoder_pos, token, camera)),
{
    reveal(PlanView::encode_camera);
    reveal(PlanView::backbone);
    let d = plan::MODEL_DIM as int;
    let (q, a, b, c, im2col) = p.camera_stem(camera);
    lemma_camera_stem(p, camera);
    lemma_blocks(q, 0, a, 90, 160, a, b, c, im2col, camera);
    let (p1, current, height, width) = p.backbone(camera);
    lemma_quiet(p, q, p1);
    let p2 = if height != plan::FEATURE_HEIGHT || width != plan::FEATURE_WIDTH {
        p1.failed(crate::act::Error::ShapeMismatch)
    } else {
        p1
    };
    lemma_small(p1);
    lemma_itself(p1);
    lemma_quiet(p, p1, p2);
    let (p3, weight) = p2.weight(
        text("model.encoder_img_feat_input_proj.weight"),
        seq![d, d, 1, 1],
    );
    let (p4, bias) = p3.weight(text("model.encoder_img_feat_input_proj.bias"), seq![d]);
    let to = encoder.piece(token * plan::MODEL_DIM, plan::IMAGE_TOKENS * plan::MODEL_DIM);
    let p5 = p4.linear(
        Operand::Buffer(current),
        plan::IMAGE_TOKENS as int,
        d,
        weight,
        bias,
        Operand::Buffer(to),
        d,
    );
    lemma_linear(
        p4,
        Operand::Buffer(current),
        plan::IMAGE_TOKENS as int,
        d,
        weight,
        bias,
        Operand::Buffer(to),
        d,
    );
    let p6 = p5.push(
        Step::Position {
            to: encoder_pos.piece(token * plan::MODEL_DIM, plan::IMAGE_TOKENS * plan::MODEL_DIM),
        },
    );
    let p7 = p6.push(Step::Done(InferenceStage::CameraProjected { camera }));
    lemma_small(p2);
    lemma_small(p3);
    lemma_small(p5);
    lemma_small(p6);
    lemma_quiet(p, p2, p3);
    lemma_quiet(p, p3, p4);
    lemma_quiet(p, p4, p5);
    lemma_quiet(p, p5, p6);
    lemma_quiet(p, p6, p7);
}

proof fn lemma_add_norm(p: PlanView, to: Buffer, addition: Buffer, rows: int, prefix: Seq<u8>)
    ensures
        quiet(p, p.add_norm(to, addition, rows, prefix)),
{
    reveal(PlanView::add_norm);
    let d = plan::MODEL_DIM as int;
    let (a, weight) = p.weight(prefix + text(".weight"), seq![d]);
    let (b, bias) = a.weight(prefix + text(".bias"), seq![d]);
    lemma_small(p);
    lemma_small(a);
    lemma_small(b);
    lemma_quiet(p, a, b);
    lemma_quiet(p, b, p.add_norm(to, addition, rows, prefix));
}

proof fn lemma_feed_forward(
    p: PlanView,
    x: Buffer,
    rows: int,
    prefix: Seq<u8>,
    norm: &str,
    mark: int,
)
    ensures
        quiet(p, p.feed_forward(x, rows, prefix, norm, mark)),
{
    reveal(PlanView::feed_forward);
    let d = plan::MODEL_DIM as int;
    let f = plan::FF_DIM as int;
    let (p1, hidden) = p.take_floats(rows * f);
    let (p2, w1) = p1.weight(prefix + text(".linear1.weight"), seq![f, d]);
    let (p3, b1) = p2.weight(prefix + text(".linear1.bias"), seq![f]);
    let p4 = p3.linear(Operand::Buffer(x), rows, d, w1, b1, Operand::Buffer(hidden), f);
    lemma_linear(p3, Operand::Buffer(x), rows, d, w1, b1, Operand::Buffer(hidden), f);
    let p5 = p4.push(Step::Relu { buffer: hidden });
    let (p6, output) = p5.take_floats(rows * d);
    let (p7, w2) = p6.weight(prefix + text(".linear2.weight"), seq![d, f]);
    let (p8, b2) = p7.weight(prefix + text(".linear2.bias"), seq![d]);
    let p9 = p8.linear(Operand::Buffer(hidden), rows, f, w2, b2, Operand::Buffer(output), d);
    lemma_linear(p8, Operand::Buffer(hidden), rows, f, w2, b2, Operand::Buffer(output), d);
    let name = prefix + text(".") + text(norm);
    let p10 = p9.add_norm(x, output, rows, name);
    lemma_add_norm(p9, x, output, rows, name);
    lemma_small(p);
    lemma_small(p1);
    lemma_small(p2);
    lemma_small(p4);
    lemma_small(p5);
    lemma_small(p6);
    lemma_small(p7);
    lemma_small(p10);
    lemma_quiet(p, p1, p2);
    lemma_quiet(p, p2, p3);
    lemma_quiet(p, p3, p4);
    lemma_quiet(p, p4, p5);
    lemma_quiet(p, p5, p6);
    lemma_quiet(p, p6, p7);
    lemma_quiet(p, p7, p8);
    lemma_quiet(p, p8, p9);
    lemma_quiet(p, p9, p10);
    lemma_quiet(p, p10, p10.reset(mark));
}

proof fn lemma_prepare(p: PlanView, encoder: Buffer, encoder_pos: Buffer)
    ensures
        quiet(p, p.prepare_scalar_tokens(encoder, encoder_pos)),
{
    reveal(PlanView::prepare_scalar_tokens);
    let d = plan::MODEL_DIM as int;
    let (p1, latent) = p.weight(text("model.encoder_latent_input_proj.bias"), seq![d]);
    let p2 = p1.push(Step::CopyWeight { weight: latent, to: encoder.piece(0, d) });
    let (p3, weight) = p2.weight(
        text("model.encoder_robot_state_input_proj.weight"),
        seq![d, plan::STATE_DIM as int],
    );
    let (p4, bias) = p3.weight(text("model.encoder_robot_state_input_proj.bias"), seq![d]);
    let to = Operand::Buffer(encoder.piece(d, d));
    let p5 = p4.linear(Operand::State, 1, plan::STATE_DIM as int, weight, bias, to, d);
    lemma_linear(p4, Operand::State, 1, plan::STATE_DIM as int, weight, bias, to, d);
    let (p6, pos) = p5.weight(text("model.encoder_1d_feature_pos_embed.weight"), seq![2, d]);
    let p7 = p6.push(Step::CopyWeight { weight: pos, to: encoder_pos.piece(0, 2 * d) });
    lemma_small(p);
    lemma_small(p1);
    lemma_small(p2);
    lemma_small(p3);
    lemma_small(p5);
    lemma_small(p6);
    lemma_quiet(p, p1, p2);
    lemma_quiet(p, p2, p3);
    lemma_quiet(p, p3, p4);
    lemma_quiet(p, p4, p5);
    lemma_quiet(p, p5, p6);
    lemma_quiet(p, p6, p7);
}

proof fn lemma_action_head(p: PlanView, decoder: Buffer)
    ensures
        quiet(p, p.action_head(decoder)),
{
    reveal(PlanView::action_head);
    let d = plan::MODEL_DIM as int;
    let (p1, nw) = p.weight(text("model.decoder.norm.weight"), seq![d]);
    let (p2, nb) = p1.weight(text("model.decoder.norm.bias"), seq![d]);
    let p3 = p2.push(
        Step::LayerNorm { buffer: decoder, rows: plan::ACTION_STEPS, weight: nw, bias: nb },
    );
    let (p4, weight) = p3.weight(
        text("model.action_head.weight"),
        seq![plan::ACTION_DIM as int, d],
    );
    let (p5, bias) = p4.weight(text("model.action_head.bias"), seq![plan::ACTION_DIM as int]);
    let rows = plan::ACTION_STEPS as int;
    let n = plan::ACTION_DIM as int;
    let p6 = p5.linear(Operand::Buffer(decoder), rows, d, weight, bias, Operand::Actions, n);
    lemma_linear(p5, Operand::Buffer(decoder), rows, d, weight, bias, Operand::Actions, n);
    let p7 = p6.push(Step::DenormalizeActions);
    let p8 = p7.push(Step::Done(InferenceStage::ActionHead));
    lemma_small(p);
    lemma_small(p1);
    lemma_small(p2);
    lemma_small(p3);
    lemma_small(p4);
    lemma_small(p6);
    lemma_small(p7);
    lemma_quiet(p, p1, p2);
    lemma_quiet(p, p2, p3);
    lemma_quiet(p, p3, p4);
    lemma_quiet(p, p4, p5);
    lemma_quiet(p, p5, p6);
    lemma_quiet(p, p6, p7);
    lemma_quiet(p, p7, p8);
}

/// The planner's workspace and file are addressable, and `top` floats are taken.
spec fn sane(p: PlanView) -> bool {
    0 <= p.top && p.len <= usize::MAX && p.file.len() <= usize::MAX
}

spec fn same_model(p: PlanView, q: PlanView) -> bool {
    q.file == p.file && q.address == p.address
}

/// A weight that was found is as long as its shape says and lies in the file.
proof fn lemma_found(file: Seq<u8>, address: int, name: Seq<u8>, shape: Seq<int>)
    requires
        file.len() <= usize::MAX,
        found(file, address, name, shape) is Ok,
    ensures
        found(file, address, name, shape)->Ok_0.len == plan::volume(shape),
        found(file, address, name, shape)->Ok_0.offset + 4 * found(
            file,
            address,
            name,
            shape,
        )->Ok_0.len <= file.len(),
{
    crate::act::safetensors::law_tensor_inside_file(file, name);
    plan::lemma_volume(shape);
}

#[verifier::spinoff_prover]
proof fn lemma_attend(
    p: PlanView,
    query: Buffer,
    query_pos: Buffer,
    key: Buffer,
    key_pos: Buffer,
    value: Buffer,
    query_rows: int,
    key_rows: int,
    n: int,
)
    requires
        sane(p),
        attending(p, n),
        0 <= query_rows <= 1000,
        0 <= key_rows <= 1000,
    ensures
        ({
            let q = p.attend(
                query,
                query_pos,
                key,
                key_pos,
                value,
                query_rows,
                key_rows,
                attending_module(n),
            ).0;
            &&& attending(q, n + 1)
            &&& same_model(p, q)
            &&& q.len == p.len
            &&& q.top >= p.top
        }),
{
    reveal(PlanView::attend);
    let d = plan::MODEL_DIM as int;
    let base = attending_module(n);
    let (q, context) = p.attend(
        query,
        query_pos,
        key,
        key_pos,
        value,
        query_rows,
        key_rows,
        base,
    );
    if q.error is None {
        assert(3 * d == 1536);
        let whole = found(p.file, p.address, base + text(".in_proj_weight"), seq![1536int, 512]);
        let sums = found(p.file, p.address, base + text(".in_proj_bias"), seq![1536int]);
        lemma_found(p.file, p.address, base + text(".in_proj_weight"), seq![1536int, 512]);
        lemma_found(p.file, p.address, base + text(".in_proj_bias"), seq![1536int]);
        assert(plan::volume(seq![1536int, 512]) == 1536 * 512) by {
            reveal_with_fuel(plan::volume, 3);
            assert(seq![1536int, 512].drop_last() =~= seq![1536int]);
            assert(seq![1536int].drop_last() =~= Seq::<int>::empty());
        }
        assert(plan::volume(seq![1536int]) == 1536) by {
            reveal_with_fuel(plan::volume, 2);
            assert(seq![1536int].drop_last() =~= Seq::<int>::empty());
        }
        let w = whole->Ok_0;
        let b = sums->Ok_0;
        let i = p.steps.len() as int;
        let steps = q.steps;
        assert(steps.len() == i + 4);
        assert(steps.take(i) =~= p.steps);
        let qb = Buffer { offset: p.top as usize, len: (query_rows * d) as usize };
        let kb = Buffer {
            offset: (p.top + query_rows * d) as usize,
            len: (key_rows * d) as usize,
        };
        let vb = Buffer {
            offset: (p.top + query_rows * d + key_rows * d) as usize,
            len: (key_rows * d) as usize,
        };
        assert(projected_by(steps, i + 3, qb, i, w.piece(0, d * d), b.piece(0, d)));
        assert(projected_by(steps, i + 3, kb, i + 1, w.piece(d * d, d * d), b.piece(d, d)));
        assert(projected_by(steps, i + 3, vb, i + 2, w.piece(2 * d * d, d * d), b.piece(2 * d, d)));
        assert(attends_with(p.file, p.address, steps, i + 3, base)) by {
            assert(steps[i + 3] == (Step::Attention {
                query: qb,
                key: kb,
                value: vb,
                query_rows: query_rows as usize,
                key_rows: key_rows as usize,
                scores: Buffer {
                    offset: (p.top + query_rows * d + key_rows * d + key_rows * d + query_rows
                        * d) as usize,
                    len: key_rows as usize,
                },
                output: context,
            }));
            assert(third(w.piece(0, d * d), w, 0, 262_144));
            assert(third(w.piece(d * d, d * d), w, 1, 262_144));
            assert(third(w.piece(2 * d * d, d * d), w, 2, 262_144));
            assert(third(b.piece(0, d), b, 0, 512));
            assert(third(b.piece(d, d), b, 1, 512));
            assert(third(b.piece(2 * d, d), b, 2, 512));
            assert(fed_by_thirds(
                steps,
                i + 3,
                (steps[i + 3]->query, steps[i + 3]->key, steps[i + 3]->value),
                (whole->Ok_0, sums->Ok_0),
                (w.piece(0, d * d), b.piece(0, d)),
                (w.piece(d * d, d * d), b.piece(d, d)),
                (w.piece(2 * d * d, d * d), b.piece(2 * d, d)),
            ));
        }
        lemma_attentions_prefix(p.steps, steps, i);
        lemma_no_more(steps, i, i + 3);
        assert(attentions(steps, i + 4) == attentions(steps, i + 3) + 1);
        assert forall|j: int| 0 <= j < steps.len() && #[trigger] steps[j]
            is Attention implies attends_with(
            q.file,
            q.address,
            steps,
            j,
            attending_module(attentions(steps, j)),
        ) by {
            if j < i {
                assert(steps.take(i)[j] == p.steps[j]);
                lemma_attentions_prefix(p.steps, steps, j);
                lemma_attends_prefix(
                    p.file,
                    p.address,
                    p.steps,
                    steps,
                    j,
                    attending_module(attentions(p.steps, j)),
                );
            } else {
                assert(j == i + 3);
            }
        }
    }
}

proof fn lemma_attention(
    p: PlanView,
    query: Buffer,
    query_pos: Buffer,
    key: Buffer,
    key_pos: Buffer,
    value: Buffer,
    query_rows: int,
    key_rows: int,
    prefix: Seq<u8>,
    module: &str,
    n: int,
)
    requires
        sane(p),
        attending(p, n),
        0 <= query_rows <= 1000,
        0 <= key_rows <= 1000,
        prefix + text(".") + text(module) == attending_module(n),
    ensures
        ({
            let q = p.attention(
                query,
                query_pos,
                key,
                key_pos,
                value,
                query_rows,
                key_rows,
                prefix,
                module,
            ).0;
            &&& attending(q, n + 1)
            &&& same_model(p, q)
            &&& sane(q)
        }),
{
    reveal(PlanView::attention);
    let d = plan::MODEL_DIM as int;
    let base = prefix + text(".") + text(module);
    let (p1, context) = p.attend(
        query,
        query_pos,
        key,
        key_pos,
        value,
        query_rows,
        key_rows,
        base,
    );
    lemma_attend(p, query, query_pos, key, key_pos, value, query_rows, key_rows, n);
    let (p2, output) = p1.take_floats(query_rows * d);
    let (p3, w) = p2.weight(base + text(".out_proj.weight"), seq![d, d]);
    let (p4, b) = p3.weight(base + text(".out_proj.bias"), seq![d]);
    let p5 = p4.linear(
        Operand::Buffer(context),
        query_rows,
        d,
        w,
        b,
        Operand::Buffer(output),
        d,
    );
    lemma_linear(p4, Operand::Buffer(context), query_rows, d, w, b, Operand::Buffer(output), d);
    lemma_small(p1);
    lemma_small(p2);
    lemma_small(p3);
    lemma_quiet(p1, p2, p3);
    lemma_quiet(p1, p3, p4);
    lemma_quiet(p1, p4, p5);
    lemma_quiet_keeps(p1, p5, n + 1);
}

proof fn lemma_encoder_layer(p: PlanView, x: Buffer, pos: Buffer, mark: int, n: int)
    requires
        sane(p),
        attending(p, n),
        0 <= mark,
        0 <= n < 4,
    ensures
        attending(p.encoder_layer(x, pos, text(plan::encoder_prefix(n)), mark), n + 1),
        sane(p.encoder_layer(x, pos, text(plan::encoder_prefix(n)), mark)),
        same_model(p, p.encoder_layer(x, pos, text(plan::encoder_prefix(n)), mark)),
{
    reveal(PlanView::encoder_layer);
    let prefix = text(plan::encoder_prefix(n));
    let rows = plan::ENCODER_TOKENS as int;
    let (p1, a) = p.attention(x, pos, x, pos, x, rows, rows, prefix, "self_attn");
    lemma_attention(p, x, pos, x, pos, x, rows, rows, prefix, "self_attn", n);
    let p2 = p1.add_norm(x, a, rows, prefix + text(".norm1"));
    lemma_add_norm(p1, x, a, rows, prefix + text(".norm1"));
    let p3 = p2.reset(mark);
    lemma_small(p2);
    let p4 = p3.feed_forward(x, rows, prefix, "norm2", mark);
    lemma_feed_forward(p3, x, rows, prefix, "norm2", mark);
    lemma_quiet(p1, p2, p3);
    lemma_quiet(p1, p3, p4);
    lemma_quiet_keeps(p1, p4, n + 1);
    lemma_mark(p3, x, rows, prefix, "norm2", mark);
}

proof fn lemma_mark(p: PlanView, x: Buffer, rows: int, prefix: Seq<u8>, norm: &str, mark: int)
    ensures
        p.feed_forward(x, rows, prefix, norm, mark).top == mark,
{
    reveal(PlanView::feed_forward);
}

proof fn lemma_encoder_layers(p: PlanView, i: int, x: Buffer, pos: Buffer, mark: int)
    requires
        sane(p),
        attending(p, i),
        0 <= mark,
        0 <= i <= 4,
    ensures
        attending(p.encoder_layers(i, x, pos, mark), 4),
        sane(p.encoder_layers(i, x, pos, mark)),
        same_model(p, p.encoder_layers(i, x, pos, mark)),
    decreases 4 - i,
{
    if i < 4 {
        lemma_encoder_layer(p, x, pos, mark, i);
        let q = p.encoder_layer(x, pos, text(plan::encoder_prefix(i)), mark);
        lemma_small(q);
        let r = q.push(Step::Done(InferenceStage::EncoderLayer { layer: i as u8 }));
        lemma_quiet_keeps(q, r, i + 1);
        lemma_encoder_layers(r, i + 1, x, pos, mark);
    }
}

proof fn lemma_decoder_layer(
    p: PlanView,
    x: Buffer,
    x_pos: Buffer,
    encoder: Buffer,
    encoder_pos: Buffer,
    mark: int,
)
    requires
        sane(p),
        attending(p, 4),
        0 <= mark,
    ensures
        attending(p.decoder_layer(x, x_pos, encoder, encoder_pos, mark), 6),
        same_model(p, p.decoder_layer(x, x_pos, encoder, encoder_pos, mark)),
{
    reveal(PlanView::decoder_layer);
    let prefix = text("model.decoder.layers.0");
    let n = plan::ACTION_STEPS as int;
    let m = plan::ENCODER_TOKENS as int;
    let (p1, own) = p.attention(x, x_pos, x, x_pos, x, n, n, prefix, "self_attn");
    lemma_attention(p, x, x_pos, x, x_pos, x, n, n, prefix, "self_attn", 4);
    let p2 = p1.add_norm(x, own, n, prefix + text(".norm1"));
    lemma_add_norm(p1, x, own, n, prefix + text(".norm1"));
    lemma_small(p2);
    let p3 = p2.reset(mark);
    lemma_quiet(p1, p2, p3);
    lemma_quiet_keeps(p1, p3, 5);
    let (p4, cross) = p3.attention(
        x,
        x_pos,
        encoder,
        encoder_pos,
        encoder,
        n,
        m,
        prefix,
        "multihead_attn",
    );
    lemma_attention(
        p3,
        x,
        x_pos,
        encoder,
        encoder_pos,
        encoder,
        n,
        m,
        prefix,
        "multihead_attn",
        5,
    );
    let p5 = p4.add_norm(x, cross, n, prefix + text(".norm2"));
    lemma_add_norm(p4, x, cross, n, prefix + text(".norm2"));
    lemma_small(p5);
    let p6 = p5.reset(mark);
    let p7 = p6.feed_forward(x, n, prefix, "norm3", mark);
    lemma_feed_forward(p6, x, n, prefix, "norm3", mark);
    lemma_quiet(p4, p5, p6);
    lemma_quiet(p4, p6, p7);
    lemma_quiet_keeps(p4, p7, 6);
}

/// In a pass that is laid out without error there are six attentions. Each one's queries, keys and
/// values were last written by projections with the first, the second and the third block of its
/// own module's tensors. The three blocks do not overlap, and together they are the whole tensor.
pub proof fn law_attention_uses_each_third(p: PlanView)
    requires
        sane_start(p),
        p.predict().error is None,
    ensures
        ({
            let q = p.predict();
            &&& attentions(q.steps, q.steps.len() as int) == 6
            &&& forall|i: int|
                0 <= i < q.steps.len() && #[trigger] q.steps[i] is Attention ==> attends_with(
                    p.file,
                    p.address,
                    q.steps,
                    i,
                    attending_module(attentions(q.steps, i)),
                )
        }),
{
    let d = plan::MODEL_DIM as int;
    let (p1, encoder) = p.take_floats(plan::ENCODER_TOKENS * d);
    let (p2, encoder_pos) = p1.take_floats(plan::ENCODER_TOKENS * d);
    let (p3, decoder) = p2.take_floats(plan::ACTION_STEPS * d);
    let (p4, decoder_pos) = p3.take_floats(plan::ACTION_STEPS * d);
    let p5 = p4.prepare_scalar_tokens(encoder, encoder_pos);
    lemma_prepare(p4, encoder, encoder_pos);
    let (p6, weight) = p5.weight(
        text("model.decoder_pos_embed.weight"),
        seq![plan::ACTION_STEPS as int, d],
    );
    let p7 = p6.push(Step::CopyWeight { weight, to: decoder_pos });
    let p8 = p7.push(Step::Zero { to: decoder });
    let p9 = p8.push(Step::Done(InferenceStage::InputPrepared));
    let mark = p9.top;
    let p10 = p9.encode_camera(encoder, encoder_pos, 2, 0);
    lemma_encode_camera(p9, encoder, encoder_pos, 2, 0);
    let p11 = p10.reset(mark);
    let p12 = p11.encode_camera(encoder, encoder_pos, 2 + plan::IMAGE_TOKENS, 1);
    lemma_encode_camera(p11, encoder, encoder_pos, 2 + plan::IMAGE_TOKENS, 1);
    let p13 = p12.reset(mark);
    lemma_small(p);
    lemma_small(p1);
    lemma_small(p2);
    lemma_small(p3);
    lemma_small(p5);
    lemma_small(p6);
    lemma_small(p7);
    lemma_small(p8);
    lemma_small(p10);
    lemma_small(p12);
    lemma_quiet(p, p1, p2);
    lemma_quiet(p, p2, p3);
    lemma_quiet(p, p3, p4);
    lemma_quiet(p, p4, p5);
    lemma_quiet(p, p5, p6);
    lemma_quiet(p, p6, p7);
    lemma_quiet(p, p7, p8);
    lemma_quiet(p, p8, p9);
    lemma_quiet(p, p9, p10);
    lemma_quiet(p, p10, p11);
    lemma_quiet(p, p11, p12);
    lemma_quiet(p, p12, p13);
    assert(attending(p, 0));
    lemma_quiet_keeps(p, p13, 0);
    lemma_prepare_top(p4, encoder, encoder_pos);
    lemma_encoder_layers(p13, 0, encoder, encoder_pos, mark);
    let p14 = p13.encoder_layers(0, encoder, encoder_pos, mark);
    lemma_decoder_layer(p14, decoder, decoder_pos, encoder, encoder_pos, mark);
    let p15 = p14.decoder_layer(decoder, decoder_pos, encoder, encoder_pos, mark);
    let p16 = p15.push(Step::Done(InferenceStage::Decoder));
    lemma_small(p15);
    lemma_action_head(p16, decoder);
    lemma_quiet(p15, p16, p16.action_head(decoder));
    lemma_quiet_keeps(p15, p16.action_head(decoder), 6);
    assert(p.predict() == p16.action_head(decoder));
}

proof fn lemma_prepare_top(p: PlanView, encoder: Buffer, encoder_pos: Buffer)
    ensures
        p.prepare_scalar_tokens(encoder, encoder_pos).top == p.top,
{
    reveal(PlanView::prepare_scalar_tokens);
}

/// Nothing is laid out yet, and the workspace and the file are addressable.
pub open spec fn sane_start(p: PlanView) -> bool {
    &&& p.error is None
    &&& p.steps.len() == 0
    &&& p.top == 0
    &&& p.len <= usize::MAX
    &&& p.file.len() <= usize::MAX
}

} // verus!
