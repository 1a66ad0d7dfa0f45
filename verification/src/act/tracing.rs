//! The steps of a pass compute the network, whatever buffers they use.
use crate::act::network::{fresh, made, stored, Layer, Model, Run, Value};
use crate::act::plan::{
    self, text, BlockSpec, Buffer, Conv, InferenceStage, Operand, PlanView, Step,
};
use vstd::prelude::*;

verus! {

/// What the workspace holds after the steps that are laid out.
spec fn ran(p: PlanView) -> Run {
    fresh(p.len).after_all(p.steps)
}

spec fn model(p: PlanView) -> Model {
    Model { file: p.file, address: p.address }
}

spec fn nowhere() -> Buffer {
    Buffer { offset: 0, len: 0 }
}

/// The workspace is addressable and not overdrawn.
spec fn sane(p: PlanView) -> bool {
    0 <= p.top <= p.len <= usize::MAX
}

/// Only the workspace and the steps may differ.
spec fn onward(p: PlanView, q: PlanView) -> bool {
    q.file == p.file && q.address == p.address && q.len == p.len && q.provider == p.provider
}

/// The first `top` floats are the same, but for two buffers; so are the actions.
spec fn kept(r: Run, t: Run, top: int, h: Buffer, g: Buffer) -> bool {
    &&& t.floats.len() == r.floats.len()
    &&& t.actions == r.actions
    &&& forall|i: int|
        0 <= i < top && i < r.floats.len() && !(h.offset <= i < h.offset + h.len) && !(g.offset <= i
            < g.offset + g.len) ==> #[trigger] t.floats[i] == r.floats[i]
}

proof fn lemma_kept(r: Run, s: Run, t: Run, top: int, h: Buffer, g: Buffer)
    requires
        kept(r, s, top, h, g),
        kept(s, t, top, h, g),
    ensures
        kept(r, t, top, h, g),
{
    assert forall|i: int|
        0 <= i < top && i < r.floats.len() && !(h.offset <= i < h.offset + h.len) && !(g.offset <= i
            < g.offset + g.len) implies #[trigger] t.floats[i] == r.floats[i] by {
        assert(s.floats[i] == r.floats[i]);
    }
}

proof fn lemma_kept_get(r: Run, t: Run, top: int, h: Buffer, g: Buffer, c: Buffer)
    requires
        kept(r, t, top, h, g),
        c.inside(top),
        c.inside(r.floats.len() as int),
        c.apart(h),
        c.apart(g),
    ensures
        t.get(c) == r.get(c),
{
    assert forall|k: int| 0 <= k < c.len implies t.get(c)[k] == r.get(c)[k] by {
        assert(t.floats[c.offset + k] == r.floats[c.offset + k]);
    }
    assert(t.get(c) =~= r.get(c));
}

proof fn lemma_put(r: Run, b: Buffer, v: Seq<Value>)
    requires
        b.inside(r.floats.len() as int),
        v.len() == b.len,
    ensures
        r.put(b, v).get(b) == v,
        forall|c: Buffer|
            c.inside(r.floats.len() as int) && c.apart(b) ==> #[trigger] r.put(b, v).get(c) == r.get(
                c,
            ),
        forall|top: int, g: Buffer| #[trigger] kept(r, r.put(b, v), top, b, g),
        forall|top: int, g: Buffer| #[trigger] kept(r, r.put(b, v), top, g, b),
{
    assert(r.put(b, v).get(b) =~= v);
    assert forall|c: Buffer|
        c.inside(r.floats.len() as int) && c.apart(b) implies #[trigger] r.put(b, v).get(c)
        == r.get(c) by {
        assert(r.put(b, v).get(c) =~= r.get(c));
    }
}

proof fn lemma_push(p: PlanView, step: Step)
    requires
        p.error is None,
    ensures
        ran(p.push(step)) == ran(p).after(step),
{
    assert(p.steps.push(step).drop_last() =~= p.steps);
    assert(p.steps.push(step).last() == step);
}

proof fn lemma_len(r: Run, steps: Seq<Step>)
    ensures
        r.after_all(steps).floats.len() == r.floats.len(),
    decreases steps.len(),
{
    if steps.len() > 0 {
        lemma_len(r, steps.drop_last());
    }
}

proof fn lemma_ran_len(p: PlanView)
    requires
        sane(p),
    ensures
        ran(p).floats.len() == p.len,
{
    lemma_len(fresh(p.len), p.steps);
}

proof fn lemma_weight(p: PlanView, name: Seq<u8>, shape: Seq<int>)
    ensures
        p.weight(name, shape).0.error is None ==> p.error is None && p.weight(name, shape) == (
            p,
            model(p).weight(name, shape),
        ),
        onward(p, p.weight(name, shape).0),
{
}

#[verifier::spinoff_prover]
proof fn lemma_conv_norm(
    p: PlanView,
    conv: Conv,
    input: Buffer,
    wname: Seq<u8>,
    norm: Seq<u8>,
    output: Buffer,
    im2col: Buffer,
    relu: bool,
)
    requires
        sane(p),
        input.inside(p.len),
        output.inside(p.len),
        im2col.inside(p.len),
        input.apart(output),
        input.apart(im2col),
        output.apart(im2col),
        0 <= conv.rows() <= usize::MAX,
        p.conv_norm(conv, input, wname, norm, output, im2col, relu).error is None,
    ensures
        ({
            let q = p.conv_norm(conv, input, wname, norm, output, im2col, relu);
            &&& p.error is None
            &&& onward(p, q)
            &&& q.top == p.top
            &&& ran(q).get(output) == model(p).conv_norm(
                ran(p).get(input),
                conv,
                wname,
                norm,
                output.len as int,
                relu,
            )
            &&& kept(ran(p), ran(q), p.len, output, im2col)
        }),
{
    reveal(PlanView::conv_norm);
    reveal(Model::conv_norm);
    lemma_ran_len(p);
    let c = conv.output_c as int;
    let shape = seq![c, conv.input_c as int, conv.kernel as int, conv.kernel as int];
    let m = model(p);
    let (p1, weight) = p.weight(wname, shape);
    lemma_weight(p, wname, shape);
    let p2 = p1.conv2d(conv, input, weight, output, im2col);
    lemma_weight(p2, norm + text(".weight"), seq![c]);
    let (p3, nw) = p2.weight(norm + text(".weight"), seq![c]);
    lemma_weight(p3, norm + text(".bias"), seq![c]);
    let (p4, nb) = p3.weight(norm + text(".bias"), seq![c]);
    lemma_weight(p4, norm + text(".running_mean"), seq![c]);
    let (p5, nm) = p4.weight(norm + text(".running_mean"), seq![c]);
    lemma_weight(p5, norm + text(".running_var"), seq![c]);
    let (p6, nv) = p5.weight(norm + text(".running_var"), seq![c]);
    let step1 = Step::Conv { conv, input, weight, output, im2col };
    let step2 = Step::BatchNorm {
        buffer: output,
        pixels: conv.rows() as usize,
        channels: conv.output_c,
        weight: nw,
        bias: nb,
        mean: nm,
        variance: nv,
        relu,
    };
    let q = p.conv_norm(conv, input, wname, norm, output, im2col, relu);
    assert(p6.error is None && p2.error is None && p1.error is None && p.error is None);
    assert(p2 == p.push(step1));
    assert(q == p2.push(step2));
    lemma_push(p, step1);
    lemma_push(p2, step2);
    let r = ran(p);
    let a = r.scratched(im2col);
    lemma_put(r, im2col, Seq::new(im2col.len as nat, |k: int| Value::Scratch));
    let y = made(Layer::Conv { conv, weight }, seq![r.get(input)], output.len as int);
    lemma_put(a, output, y);
    let b = a.put(output, y);
    assert(ran(p2) == b);
    let z = made(
        Layer::BatchNorm {
            pixels: conv.rows(),
            channels: c,
            weight: nw,
            bias: nb,
            mean: nm,
            variance: nv,
            relu,
        },
        seq![y],
        output.len as int,
    );
    lemma_put(b, output, z);
    assert(ran(q) == b.put(output, z));
    assert(kept(r, a, p.len, output, im2col));
    assert(kept(a, b, p.len, output, im2col));
    assert(kept(b, ran(q), p.len, output, im2col));
    lemma_kept(r, a, b, p.len, output, im2col);
    lemma_kept(r, b, ran(q), p.len, output, im2col);
}


/// Three buffers for features and one for unfolded images, all behind the first `base` floats.
spec fn laid_out(base: int, len: int, a: Buffer, b: Buffer, c: Buffer, im2col: Buffer) -> bool {
    &&& a.len == plan::FEATURE_FLOATS && b.len == plan::FEATURE_FLOATS && c.len
        == plan::FEATURE_FLOATS
    &&& base <= a.offset && base <= b.offset && base <= c.offset && base <= im2col.offset
    &&& a.inside(len) && b.inside(len) && c.inside(len) && im2col.inside(len)
    &&& a.apart(b) && a.apart(c) && b.apart(c)
    &&& a.apart(im2col) && b.apart(im2col) && c.apart(im2col)
}

/// The buffer lies at the start of one of the three.
spec fn at_one(x: Buffer, a: Buffer, b: Buffer, c: Buffer) -> bool {
    (x.offset == a.offset || x.offset == b.offset || x.offset == c.offset) && 0 < x.len
        <= plan::FEATURE_FLOATS
}

#[verifier::spinoff_prover]
#[verifier::rlimit(40)]
proof fn lemma_basic_block(
    p: PlanView,
    input: Buffer,
    height: int,
    width: int,
    a: Buffer,
    b: Buffer,
    c: Buffer,
    im2col: Buffer,
    block: BlockSpec,
    base: int,
)
    requires
        sane(p),
        0 <= base,
        laid_out(base, p.len, a, b, c, im2col),
        at_one(input, a, b, c),
        block.wf(),
        1 <= height <= 1000,
        1 <= width <= 1000,
        ({
            let n = plan::div_up(height, block.stride as int) * plan::div_up(
                width,
                block.stride as int,
            ) * block.out_channels;
            &&& 0 < n <= plan::FEATURE_FLOATS
            &&& !block.downsample ==> n == input.len
        }),
        0 <= block.first(height, width).rows() <= usize::MAX,
        0 <= block.second(
            plan::div_up(height, block.stride as int),
            plan::div_up(width, block.stride as int),
        ).rows() <= usize::MAX,
        0 <= block.shortcut(height, width).rows() <= usize::MAX,
        p.basic_block(input, height, width, a, b, c, im2col, block).0.error is None,
    ensures
        ({
            let (q, output) = p.basic_block(input, height, width, a, b, c, im2col, block);
            &&& p.error is None
            &&& onward(p, q)
            &&& q.top == p.top
            &&& at_one(output, a, b, c)
            &&& output.len == plan::div_up(height, block.stride as int) * plan::div_up(
                width,
                block.stride as int,
            ) * block.out_channels
            &&& ran(q).get(output) == model(p).block(ran(p).get(input), height, width, block)
            &&& kept(ran(p), ran(q), base, nowhere(), nowhere())
        }),
{
    reveal(Model::block);
    lemma_ran_len(p);
    let h = plan::div_up(height, block.stride as int);
    let w = plan::div_up(width, block.stride as int);
    let n = h * w * block.out_channels;
    let name = text("model.backbone.") + text(block.name);
    assert(plan::free_pair(input, a, b, c) is Some);
    let (temp0, output0) = plan::free_pair(input, a, b, c)->0;
    let temp = temp0.piece(0, n);
    let output = output0.piece(0, n);
    assert(temp.apart(output) && temp.apart(input) && output.apart(input));
    assert(temp.apart(im2col) && output.apart(im2col) && input.apart(im2col));
    assert(input.inside(p.len) && temp.inside(p.len) && output.inside(p.len));
    let (q, result) = p.basic_block(input, height, width, a, b, c, im2col, block);
    assert(result == output);
    let p1 = p.conv_norm(
        block.first(height, width),
        input,
        name + text(".conv1.weight"),
        name + text(".bn1"),
        temp,
        im2col,
        true,
    );
    let p2 = p1.conv_norm(
        block.second(h, w),
        temp,
        name + text(".conv2.weight"),
        name + text(".bn2"),
        output,
        im2col,
        false,
    );
    let p3 = p2.conv_norm(
        block.shortcut(height, width),
        input,
        name + text(".downsample.0.weight"),
        name + text(".downsample.1"),
        temp,
        im2col,
        false,
    );
    lemma_conv_norm_errors(
        p1,
        block.second(h, w),
        temp,
        name + text(".conv2.weight"),
        name + text(".bn2"),
        output,
        im2col,
        false,
    );
    lemma_conv_norm_errors(
        p2,
        block.shortcut(height, width),
        input,
        name + text(".downsample.0.weight"),
        name + text(".downsample.1"),
        temp,
        im2col,
        false,
    );
    lemma_conv_norm(
        p,
        block.first(height, width),
        input,
        name + text(".conv1.weight"),
        name + text(".bn1"),
        temp,
        im2col,
        true,
    );
    lemma_conv_norm(
        p1,
        block.second(h, w),
        temp,
        name + text(".conv2.weight"),
        name + text(".bn2"),
        output,
        im2col,
        false,
    );
    let none = nowhere();
    assert(kept(ran(p), ran(p1), base, none, none));
    assert(kept(ran(p1), ran(p2), base, none, none));
    lemma_kept(ran(p), ran(p1), ran(p2), base, none, none);
    lemma_ran_len(p1);
    lemma_ran_len(p2);
    lemma_kept_get(ran(p), ran(p1), p.len, temp, im2col, input);
    lemma_kept_get(ran(p1), ran(p2), p.len, output, im2col, input);
    if block.downsample {
        lemma_conv_norm(
            p2,
            block.shortcut(height, width),
            input,
            name + text(".downsample.0.weight"),
            name + text(".downsample.1"),
            temp,
            im2col,
            false,
        );
        lemma_ran_len(p3);
        lemma_kept_get(ran(p2), ran(p3), p.len, temp, im2col, output);
        assert(kept(ran(p2), ran(p3), base, none, none));
        lemma_kept(ran(p), ran(p2), ran(p3), base, none, none);
        let step = Step::AddRelu { output, shortcut: temp };
        assert(q == p3.push(step));
        lemma_push(p3, step);
        let v = made(
            Layer::AddRelu,
            seq![ran(p3).get(output), ran(p3).get(temp)],
            output.len as int,
        );
        lemma_put(ran(p3), output, v);
        assert(kept(ran(p3), ran(q), base, none, none));
        lemma_kept(ran(p), ran(p3), ran(q), base, none, none);
    } else {
        let step = Step::AddRelu { output, shortcut: input.piece(0, n) };
        assert(input.piece(0, n) == input);
        assert(q == p2.push(step));
        lemma_push(p2, step);
        let v = made(
            Layer::AddRelu,
            seq![ran(p2).get(output), ran(p2).get(input)],
            output.len as int,
        );
        lemma_put(ran(p2), output, v);
        assert(kept(ran(p2), ran(q), base, none, none));
        lemma_kept(ran(p), ran(p2), ran(q), base, none, none);
    }
}

/// What goes wrong stays wrong.
proof fn lemma_conv_norm_errors(
    p: PlanView,
    conv: Conv,
    input: Buffer,
    wname: Seq<u8>,
    norm: Seq<u8>,
    output: Buffer,
    im2col: Buffer,
    relu: bool,
)
    ensures
        p.error is Some ==> p.conv_norm(
            conv,
            input,
            wname,
            norm,
            output,
            im2col,
            relu,
        ).error is Some,
{
    reveal(PlanView::conv_norm);
}

/// Height and width of what block `i` gets.
spec fn size_at(i: int) -> (int, int) {
    if i <= 2 {
        (90, 160)
    } else if i <= 4 {
        (45, 80)
    } else if i <= 6 {
        (23, 40)
    } else {
        (12, 20)
    }
}

/// The floats that block `i` gets.
spec fn floats_at(i: int) -> int {
    if i <= 2 {
        921_600
    } else if i <= 4 {
        460_800
    } else if i <= 6 {
        235_520
    } else {
        122_880
    }
}

proof fn lemma_sizes(i: int)
    requires
        0 <= i < 8,
    ensures
        ({
            let block = plan::block_at(i);
            let (height, width) = size_at(i);
            let h = plan::div_up(height, block.stride as int);
            let w = plan::div_up(width, block.stride as int);
            &&& block.wf()
            &&& size_at(i + 1) == (h, w)
            &&& h * w * block.out_channels == floats_at(i + 1)
            &&& !block.downsample ==> floats_at(i + 1) == floats_at(i)
            &&& 0 < floats_at(i) <= plan::FEATURE_FLOATS
            &&& 0 < floats_at(i + 1) <= plan::FEATURE_FLOATS
            &&& 0 <= block.first(height, width).rows() <= usize::MAX
            &&& 0 <= block.second(h, w).rows() <= usize::MAX
            &&& 0 <= block.shortcut(height, width).rows() <= usize::MAX
        }),
{
    let block = plan::block_at(i);
    let (height, width) = size_at(i);
    let h = plan::div_up(height, block.stride as int);
    let w = plan::div_up(width, block.stride as int);
    let n = block.out_channels as int;
    if i == 0 {
        assert(h == 90 && w == 160 && n == 64);
        assert(90 * 160 == 14400 && 14400 * 64 == 921600) by (nonlinear_arith);
        lemma_same_volume(h, w, n, 90, 160, 64);
    } else if i == 1 {
        assert(h == 90 && w == 160 && n == 64);
        assert(90 * 160 == 14400 && 14400 * 64 == 921600) by (nonlinear_arith);
        lemma_same_volume(h, w, n, 90, 160, 64);
    } else if i == 2 {
        assert(h == 45 && w == 80 && n == 128);
        assert(45 * 80 == 3600 && 3600 * 128 == 460800) by (nonlinear_arith);
        lemma_same_volume(h, w, n, 45, 80, 128);
    } else if i == 3 {
        assert(h == 45 && w == 80 && n == 128);
        assert(45 * 80 == 3600 && 3600 * 128 == 460800) by (nonlinear_arith);
        lemma_same_volume(h, w, n, 45, 80, 128);
    } else if i == 4 {
        assert(h == 23 && w == 40 && n == 256);
        assert(23 * 40 == 920 && 920 * 256 == 235520) by (nonlinear_arith);
        lemma_same_volume(h, w, n, 23, 40, 256);
    } else if i == 5 {
        assert(h == 23 && w == 40 && n == 256);
        assert(23 * 40 == 920 && 920 * 256 == 235520) by (nonlinear_arith);
        lemma_same_volume(h, w, n, 23, 40, 256);
    } else if i == 6 {
        assert(h == 12 && w == 20 && n == 512);
        assert(12 * 20 == 240 && 240 * 512 == 122880) by (nonlinear_arith);
        lemma_same_volume(h, w, n, 12, 20, 512);
    } else {
        assert(h == 12 && w == 20 && n == 512);
        assert(12 * 20 == 240 && 240 * 512 == 122880) by (nonlinear_arith);
        lemma_same_volume(h, w, n, 12, 20, 512);
    }
    lemma_rows(block.first(height, width));
    lemma_rows(block.second(h, w));
    lemma_rows(block.shortcut(height, width));
}

proof fn lemma_same_volume(a: int, b: int, c: int, x: int, y: int, z: int)
    requires
        a == x,
        b == y,
        c == z,
    ensures
        a * b * c == x * y * z,
{
}

proof fn lemma_rows(conv: Conv)
    requires
        conv.stride == 1 || conv.stride == 2,
        conv.input_h <= 1000,
        conv.input_w <= 1000,
        conv.kernel <= conv.input_h + 2 * conv.padding,
        conv.kernel <= conv.input_w + 2 * conv.padding,
        conv.padding <= 10,
    ensures
        0 <= conv.rows() <= usize::MAX,
{
    let h = conv.output_h();
    let w = conv.output_w();
    assert(0 <= h <= 2000 && 0 <= w <= 2000);
    assert(0 <= h * w <= 4_000_000) by (nonlinear_arith)
        requires
            0 <= h <= 2000,
            0 <= w <= 2000,
    ;
}

proof fn lemma_blocks(
    p: PlanView,
    i: int,
    current: Buffer,
    a: Buffer,
    b: Buffer,
    c: Buffer,
    im2col: Buffer,
    camera: u8,
    base: int,
)
    requires
        sane(p),
        0 <= base,
        0 <= i <= 8,
        laid_out(base, p.len, a, b, c, im2col),
        at_one(current, a, b, c),
        current.len == floats_at(i),
        p.blocks(
            i,
            current,
            size_at(i).0,
            size_at(i).1,
            a,
            b,
            c,
            im2col,
            camera,
        ).0.error is None,
    ensures
        ({
            let (q, output, h, w) = p.blocks(
                i,
                current,
                size_at(i).0,
                size_at(i).1,
                a,
                b,
                c,
                im2col,
                camera,
            );
            &&& p.error is None
            &&& onward(p, q)
            &&& q.top == p.top
            &&& h == 12 && w == 20
            &&& at_one(output, a, b, c)
            &&& output.len == 122_880
            &&& ran(q).get(output) == model(p).blocks(
                ran(p).get(current),
                i,
                size_at(i).0,
                size_at(i).1,
            )
            &&& kept(ran(p), ran(q), base, nowhere(), nowhere())
        }),
    decreases 8 - i,
{
    reveal_with_fuel(Model::blocks, 2);
    if i < 8 {
        let block = plan::block_at(i);
        let (height, width) = size_at(i);
        let h = plan::div_up(height, block.stride as int);
        let w = plan::div_up(width, block.stride as int);
        lemma_sizes(i);
        let (p1, next) = p.basic_block(current, height, width, a, b, c, im2col, block);
        let step = Step::Done(InferenceStage::CameraBlock { camera, block: i as u8 });
        let p2 = p1.push(step);
        if p1.error is Some {
            lemma_blocks_errors(p2, i + 1, next, h, w, a, b, c, im2col, camera);
        }
        lemma_basic_block(p, current, height, width, a, b, c, im2col, block, base);
        lemma_push(p1, step);
        assert(ran(p2) == ran(p1));
        lemma_blocks(p2, i + 1, next, a, b, c, im2col, camera, base);
        let q = p2.blocks(i + 1, next, h, w, a, b, c, im2col, camera).0;
        lemma_kept(ran(p), ran(p2), ran(q), base, nowhere(), nowhere());
    }
}

proof fn lemma_blocks_errors(
    p: PlanView,
    i: int,
    current: Buffer,
    height: int,
    width: int,
    a: Buffer,
    b: Buffer,
    c: Buffer,
    im2col: Buffer,
    camera: u8,
)
    requires
        p.error is Some,
    ensures
        p.blocks(i, current, height, width, a, b, c, im2col, camera).0.error is Some,
    decreases 8 - i,
{
    if i < 8 {
        reveal(PlanView::conv_norm);
        let block = plan::block_at(i);
        let (p1, next) = p.basic_block(current, height, width, a, b, c, im2col, block);
        assert(p1.error is Some);
        let p2 = p1.push(Step::Done(InferenceStage::CameraBlock { camera, block: i as u8 }));
        lemma_blocks_errors(
            p2,
            i + 1,
            next,
            plan::div_up(height, block.stride as int),
            plan::div_up(width, block.stride as int),
            a,
            b,
            c,
            im2col,
            camera,
        );
    }
}


proof fn lemma_take(p: PlanView, n: int)
    requires
        sane(p),
        0 <= n,
        p.take_floats(n).0.error is None,
    ensures
        p.error is None,
        p.take_floats(n).0 == (PlanView { top: p.top + n, ..p }),
        p.take_floats(n).1.offset == p.top,
        p.take_floats(n).1.len == n,
        p.top + n <= p.len,
        sane(p.take_floats(n).0),
        ran(p.take_floats(n).0) == ran(p),
{
}

#[verifier::spinoff_prover]
#[verifier::rlimit(40)]
proof fn lemma_encode_camera(
    p: PlanView,
    encoder: Buffer,
    encoder_pos: Buffer,
    token: int,
    camera: u8,
)
    requires
        sane(p),
        encoder.len == 246_784,
        encoder_pos.len == 246_784,
        encoder.inside(p.top),
        encoder_pos.inside(p.top),
        encoder.apart(encoder_pos),
        0 <= token <= 242,
        p.encode_camera(encoder, encoder_pos, token, camera).error is None,
    ensures
        ({
            let q = p.encode_camera(encoder, encoder_pos, token, camera);
            let to = encoder.piece(token * 512, 122_880);
            let at = encoder_pos.piece(token * 512, 122_880);
            &&& p.error is None
            &&& onward(p, q)
            &&& p.top <= q.top <= q.len
            &&& ran(q).get(to) == model(p).image_tokens(camera)
            &&& ran(q).get(at) == Seq::new(122_880, |k: int| Value::Position { k })
            &&& kept(ran(p), ran(q), p.top, to, at)
        }),
{
    reveal(PlanView::encode_camera);
    reveal(PlanView::backbone);
    reveal(PlanView::camera_stem);
    reveal(Model::image_tokens);
    lemma_ran_len(p);
    let m = model(p);
    let none = nowhere();
    let base = p.top;
    let to = encoder.piece(token * 512, 122_880);
    let at = encoder_pos.piece(token * 512, 122_880);
    let (p1, normalized) = p.take_floats(691_200);
    let s2 = Step::NormalizeImage { camera, to: normalized };
    let p2 = p1.push(s2);
    let s3 = Step::Done(InferenceStage::CameraNormalized { camera });
    let p3 = p2.push(s3);
    let (p4, conv1) = p3.take_floats(3_686_400);
    let (p5, a) = p4.take_floats(921_600);
    let (p6, b) = p5.take_floats(921_600);
    let (p7, c) = p6.take_floats(921_600);
    let (p8, im2col) = p7.take_floats(8_467_200);
    let wname = text("model.backbone.conv1.weight");
    let nname = text("model.backbone.bn1");
    let p9 = p8.conv_norm(plan::stem(), normalized, wname, nname, conv1, im2col, true);
    let s10 = Step::MaxPool { input: conv1, input_h: 180, input_w: 320, channels: 64, output: a };
    let p10 = p9.push(s10);
    let s11 = Step::Done(InferenceStage::CameraStem { camera });
    let p11 = p10.push(s11);
    let (p12, current, height, width) = p11.blocks(0, a, 90, 160, a, b, c, im2col, camera);
    assert(p.camera_stem(camera) == (p11, a, b, c, im2col));
    assert(p.backbone(camera) == (p12, current, height, width));
    if p11.error is Some {
        lemma_blocks_errors(p11, 0, a, 90, 160, a, b, c, im2col, camera);
    }
    let p13 = if height != plan::FEATURE_HEIGHT || width != plan::FEATURE_WIDTH {
        p12.failed(crate::act::Error::ShapeMismatch)
    } else {
        p12
    };
    let pw = text("model.encoder_img_feat_input_proj.weight");
    let pb = text("model.encoder_img_feat_input_proj.bias");
    lemma_weight(p13, pw, seq![512int, 512, 1, 1]);
    let (p14, weight) = p13.weight(pw, seq![512int, 512, 1, 1]);
    lemma_weight(p14, pb, seq![512int]);
    let (p15, bias) = p14.weight(pb, seq![512int]);
    let s16 = Step::Linear {
        input: Operand::Buffer(current),
        rows: 240,
        input_dim: 512,
        weight,
        bias,
        output: Operand::Buffer(to),
        output_dim: 512,
    };
    let p16 = p15.linear(
        Operand::Buffer(current),
        240,
        512,
        weight,
        bias,
        Operand::Buffer(to),
        512,
    );
    let s17 = Step::Position { to: at };
    let p17 = p16.push(s17);
    let s18 = Step::Done(InferenceStage::CameraProjected { camera });
    let q = p17.push(s18);
    assert(q == p.encode_camera(encoder, encoder_pos, token, camera));
    assert(q.error is None && p17.error is None && p16.error is None && p15.error is None);
    assert(p13.error is None && p12.error is None && p11.error is None && p9.error is None);
    lemma_conv_norm_errors(p8, plan::stem(), normalized, wname, nname, conv1, im2col, true);
    assert(p8.error is None && p7.error is None && p3.error is None && p1.error is None);
    lemma_take(p, 691_200);
    lemma_push(p1, s2);
    lemma_put(ran(p1), normalized, Seq::new(691_200, |k: int| Value::Image { camera, k }));
    lemma_push(p2, s3);
    assert(sane(p3));
    lemma_take(p3, 3_686_400);
    lemma_take(p4, 921_600);
    lemma_take(p5, 921_600);
    lemma_take(p6, 921_600);
    lemma_take(p7, 8_467_200);
    assert(ran(p8) == ran(p2));
    assert(kept(ran(p), ran(p8), base, none, none));
    lemma_rows(plan::stem());
    lemma_conv_norm(p8, plan::stem(), normalized, wname, nname, conv1, im2col, true);
    assert(kept(ran(p8), ran(p9), base, none, none));
    lemma_kept(ran(p), ran(p8), ran(p9), base, none, none);
    lemma_ran_len(p9);
    lemma_push(p9, s10);
    let pooled = made(
        Layer::MaxPool { height: 180, width: 320, channels: 64 },
        seq![ran(p9).get(conv1)],
        921_600,
    );
    lemma_put(ran(p9), a, pooled);
    lemma_push(p10, s11);
    assert(ran(p11) == ran(p9).put(a, pooled));
    assert(kept(ran(p9), ran(p11), base, none, none));
    lemma_kept(ran(p), ran(p9), ran(p11), base, none, none);
    lemma_blocks(p11, 0, a, a, b, c, im2col, camera, base);
    lemma_kept(ran(p), ran(p11), ran(p12), base, none, none);
    lemma_ran_len(p12);
    assert(p15 == p12);
    assert(p16 == p15.push(s16));
    lemma_push(p15, s16);
    let tokens = m.linear(ran(p12).get(current), 240, 512, 512, weight, bias);
    assert(240 * 512 == 122_880) by (nonlinear_arith);
    assert(tokens.len() == 122_880);
    lemma_put(ran(p12), to, tokens);
    assert(ran(p16) == ran(p12).put(to, tokens));
    assert(tokens == m.image_tokens(camera));
    lemma_push(p16, s17);
    lemma_put(ran(p16), at, Seq::new(122_880, |k: int| Value::Position { k }));
    lemma_push(p17, s18);
    assert(to.apart(at));
    assert(kept(ran(p), ran(p12), base, to, at));
    assert(kept(ran(p12), ran(p16), base, to, at));
    assert(kept(ran(p16), ran(q), base, to, at));
    lemma_kept(ran(p), ran(p12), ran(p16), base, to, at);
    lemma_kept(ran(p), ran(p16), ran(q), base, to, at);
}


#[verifier::spinoff_prover]
#[verifier::rlimit(40)]
proof fn lemma_attention(
    p: PlanView,
    x: Buffer,
    x_pos: Buffer,
    y: Buffer,
    y_pos: Buffer,
    rows: int,
    y_rows: int,
    prefix: Seq<u8>,
    module: &str,
)
    requires
        sane(p),
        x.inside(p.top),
        x_pos.inside(p.top),
        y.inside(p.top),
        y_pos.inside(p.top),
        0 < rows <= 1000,
        0 < y_rows <= 1000,
        p.attention(x, x_pos, y, y_pos, y, rows, y_rows, prefix, module).0.error is None,
    ensures
        ({
            let (q, output) = p.attention(x, x_pos, y, y_pos, y, rows, y_rows, prefix, module);
            &&& p.error is None
            &&& onward(p, q)
            &&& p.top <= q.top <= q.len
            &&& p.top <= output.offset
            &&& output.inside(q.top)
            &&& output.len == rows * 512
            &&& ran(q).get(output) == model(p).attention(
                ran(p).get(x),
                ran(p).get(x_pos),
                ran(p).get(y),
                ran(p).get(y_pos),
                rows,
                y_rows,
                prefix + text(".") + text(module),
            )
            &&& kept(ran(p), ran(q), p.top, nowhere(), nowhere())
        }),
{
    reveal(PlanView::attention);
    reveal(PlanView::attend);
    reveal(Model::attention);
    lemma_ran_len(p);
    let m = model(p);
    let none = nowhere();
    let top = p.top;
    let name = prefix + text(".") + text(module);
    let d = plan::MODEL_DIM as int;
    assert(d * d == 262_144 && 2 * d * d == 524_288) by (nonlinear_arith)
        requires
            d == 512,
    ;
    let wn = name + text(".in_proj_weight");
    let bn = name + text(".in_proj_bias");
    lemma_weight(p, wn, seq![1536int, 512]);
    let (p1, w) = p.weight(wn, seq![1536int, 512]);
    lemma_weight(p1, bn, seq![1536int]);
    let (p2, b) = p1.weight(bn, seq![1536int]);
    let (p3, q) = p2.take_floats(rows * 512);
    let (p4, k) = p3.take_floats(y_rows * 512);
    let (p5, v) = p4.take_floats(y_rows * 512);
    let (p6, context) = p5.take_floats(rows * 512);
    let (p7, scores) = p6.take_floats(y_rows);
    let s8 = Step::LinearSum {
        input: x,
        position: x_pos,
        rows: rows as usize,
        weight: w.piece(0, 262_144),
        bias: b.piece(0, 512),
        output: q,
    };
    let p8 = p7.push(s8);
    let s9 = Step::LinearSum {
        input: y,
        position: y_pos,
        rows: y_rows as usize,
        weight: w.piece(262_144, 262_144),
        bias: b.piece(512, 512),
        output: k,
    };
    let p9 = p8.push(s9);
    let s10 = Step::Linear {
        input: Operand::Buffer(y),
        rows: y_rows as usize,
        input_dim: 512,
        weight: w.piece(524_288, 262_144),
        bias: b.piece(1024, 512),
        output: Operand::Buffer(v),
        output_dim: 512,
    };
    let p10 = p9.linear(
        Operand::Buffer(y),
        y_rows,
        512,
        w.piece(524_288, 262_144),
        b.piece(1024, 512),
        Operand::Buffer(v),
        512,
    );
    let s11 = Step::Attention {
        query: q,
        key: k,
        value: v,
        query_rows: rows as usize,
        key_rows: y_rows as usize,
        scores,
        output: context,
    };
    let p11 = p10.push(s11);
    assert(p.attend(x, x_pos, y, y_pos, y, rows, y_rows, name) == (p11, context));
    let (p12, output) = p11.take_floats(rows * 512);
    let on = name + text(".out_proj.weight");
    let ob = name + text(".out_proj.bias");
    lemma_weight(p12, on, seq![512int, 512]);
    let (p13, ow) = p12.weight(on, seq![512int, 512]);
    lemma_weight(p13, ob, seq![512int]);
    let (p14, obias) = p13.weight(ob, seq![512int]);
    let s15 = Step::Linear {
        input: Operand::Buffer(context),
        rows: rows as usize,
        input_dim: 512,
        weight: ow,
        bias: obias,
        output: Operand::Buffer(output),
        output_dim: 512,
    };
    let p15 = p14.linear(
        Operand::Buffer(context),
        rows,
        512,
        ow,
        obias,
        Operand::Buffer(output),
        512,
    );
    assert(p.attention(x, x_pos, y, y_pos, y, rows, y_rows, prefix, module) == (p15, output));
    assert(p14.error is None && p12.error is None && p11.error is None && p10.error is None);
    assert(p9.error is None && p8.error is None && p7.error is None && p2.error is None);
    lemma_take(p2, rows * 512);
    lemma_take(p3, y_rows * 512);
    lemma_take(p4, y_rows * 512);
    lemma_take(p5, rows * 512);
    lemma_take(p6, y_rows);
    let r = ran(p);
    assert(ran(p7) == r);
    lemma_push(p7, s8);
    let qv = made(
        Layer::LinearSum { rows, weight: w.piece(0, 262_144), bias: b.piece(0, 512) },
        seq![r.get(x), r.get(x_pos)],
        rows * 512,
    );
    lemma_put(r, q, qv);
    let r8 = r.put(q, qv);
    assert(ran(p8) == r8);
    lemma_push(p8, s9);
    let kv = made(
        Layer::LinearSum {
            rows: y_rows,
            weight: w.piece(262_144, 262_144),
            bias: b.piece(512, 512),
        },
        seq![r.get(y), r.get(y_pos)],
        y_rows * 512,
    );
    lemma_put(r8, k, kv);
    let r9 = r8.put(k, kv);
    assert(ran(p9) == r9);
    assert(p10 == p9.push(s10));
    lemma_push(p9, s10);
    let vv = m.linear(
        r.get(y),
        y_rows,
        512,
        512,
        w.piece(524_288, 262_144),
        b.piece(1024, 512),
    );
    assert(vv.len() == y_rows * 512);
    lemma_put(r9, v, vv);
    let r10 = r9.put(v, vv);
    assert(r9.get(y) == r.get(y));
    assert(ran(p10) == r10);
    lemma_push(p10, s11);
    let blank = Seq::new(scores.len as nat, |k: int| Value::Scratch);
    lemma_put(r10, scores, blank);
    let r11 = r10.put(scores, blank);
    let cv = made(
        Layer::Attention { query_rows: rows, key_rows: y_rows },
        seq![qv, kv, vv],
        rows * 512,
    );
    assert(r10.get(q) == qv && r10.get(k) == kv && r10.get(v) == vv);
    lemma_put(r11, context, cv);
    let r12 = r11.put(context, cv);
    assert(ran(p11) == r12);
    assert(sane(p11));
    lemma_take(p11, rows * 512);
    assert(ran(p14) == r12);
    assert(p15 == p14.push(s15));
    lemma_push(p14, s15);
    let ov = m.linear(cv, rows, 512, 512, ow, obias);
    assert(ov.len() == rows * 512);
    lemma_put(r12, output, ov);
    assert(ran(p15) == r12.put(output, ov));
    assert(kept(r, r8, top, none, none));
    assert(kept(r8, r9, top, none, none));
    assert(kept(r9, r10, top, none, none));
    assert(kept(r10, r11, top, none, none));
    assert(kept(r11, r12, top, none, none));
    assert(kept(r12, ran(p15), top, none, none));
    lemma_kept(r, r8, r9, top, none, none);
    lemma_kept(r, r9, r10, top, none, none);
    lemma_kept(r, r10, r11, top, none, none);
    lemma_kept(r, r11, r12, top, none, none);
    lemma_kept(r, r12, ran(p15), top, none, none);
}

proof fn lemma_add_norm(p: PlanView, x: Buffer, y: Buffer, rows: int, name: Seq<u8>)
    requires
        sane(p),
        x.inside(p.len),
        y.inside(p.len),
        x.len == rows * 512,
        0 < rows <= 1000,
        p.add_norm(x, y, rows, name).error is None,
    ensures
        ({
            let q = p.add_norm(x, y, rows, name);
            &&& p.error is None
            &&& onward(p, q)
            &&& q.top == p.top
            &&& ran(q).get(x) == model(p).add_norm(ran(p).get(x), ran(p).get(y), rows, name)
            &&& kept(ran(p), ran(q), p.len, x, nowhere())
        }),
{
    reveal(PlanView::add_norm);
    reveal(Model::add_norm);
    lemma_ran_len(p);
    lemma_weight(p, name + text(".weight"), seq![512int]);
    let (p1, weight) = p.weight(name + text(".weight"), seq![512int]);
    lemma_weight(p1, name + text(".bias"), seq![512int]);
    let (p2, bias) = p1.weight(name + text(".bias"), seq![512int]);
    let step = Step::AddLayerNorm { to: x, addition: y, rows: rows as usize, weight, bias };
    assert(p.add_norm(x, y, rows, name) == p2.push(step));
    lemma_push(p2, step);
    let v = made(
        Layer::AddLayerNorm { rows, weight, bias },
        seq![ran(p).get(x), ran(p).get(y)],
        x.len as int,
    );
    lemma_put(ran(p), x, v);
}

#[verifier::spinoff_prover]
#[verifier::rlimit(40)]
proof fn lemma_feed_forward(
    p: PlanView,
    x: Buffer,
    rows: int,
    prefix: Seq<u8>,
    norm: &str,
    mark: int,
)
    requires
        sane(p),
        p.top == mark,
        x.inside(mark),
        x.len == rows * 512,
        0 < rows <= 1000,
        p.feed_forward(x, rows, prefix, norm, mark).error is None,
    ensures
        ({
            let q = p.feed_forward(x, rows, prefix, norm, mark);
            &&& p.error is None
            &&& onward(p, q)
            &&& q.top == mark
            &&& ran(q).get(x) == model(p).feed_forward(
                ran(p).get(x),
                rows,
                prefix,
                prefix + text(".") + text(norm),
            )
            &&& kept(ran(p), ran(q), mark, x, nowhere())
        }),
{
    reveal(PlanView::feed_forward);
    reveal(Model::feed_forward);
    lemma_ran_len(p);
    let m = model(p);
    let none = nowhere();
    let (p1, hidden) = p.take_floats(rows * 3200);
    let w1n = prefix + text(".linear1.weight");
    let b1n = prefix + text(".linear1.bias");
    let w2n = prefix + text(".linear2.weight");
    let b2n = prefix + text(".linear2.bias");
    lemma_weight(p1, w1n, seq![3200int, 512]);
    let (p2, w1) = p1.weight(w1n, seq![3200int, 512]);
    lemma_weight(p2, b1n, seq![3200int]);
    let (p3, b1) = p2.weight(b1n, seq![3200int]);
    let s4 = Step::Linear {
        input: Operand::Buffer(x),
        rows: rows as usize,
        input_dim: 512,
        weight: w1,
        bias: b1,
        output: Operand::Buffer(hidden),
        output_dim: 3200,
    };
    let p4 = p3.linear(Operand::Buffer(x), rows, 512, w1, b1, Operand::Buffer(hidden), 3200);
    let s5 = Step::Relu { buffer: hidden };
    let p5 = p4.push(s5);
    let (p6, output) = p5.take_floats(rows * 512);
    lemma_weight(p6, w2n, seq![512int, 3200]);
    let (p7, w2) = p6.weight(w2n, seq![512int, 3200]);
    lemma_weight(p7, b2n, seq![512int]);
    let (p8, b2) = p7.weight(b2n, seq![512int]);
    let s9 = Step::Linear {
        input: Operand::Buffer(hidden),
        rows: rows as usize,
        input_dim: 3200,
        weight: w2,
        bias: b2,
        output: Operand::Buffer(output),
        output_dim: 512,
    };
    let p9 = p8.linear(Operand::Buffer(hidden), rows, 3200, w2, b2, Operand::Buffer(output), 512);
    let name = prefix + text(".") + text(norm);
    let p10 = p9.add_norm(x, output, rows, name);
    let q = p10.reset(mark);
    assert(q == p.feed_forward(x, rows, prefix, norm, mark));
    lemma_add_norm_errors(p9, x, output, rows, name);
    assert(p9.error is None && p8.error is None && p6.error is None && p5.error is None);
    assert(p4.error is None && p3.error is None && p1.error is None);
    lemma_take(p, rows * 3200);
    assert(p4 == p3.push(s4));
    lemma_push(p3, s4);
    let hv = m.linear(ran(p).get(x), rows, 512, 3200, w1, b1);
    assert(hv.len() == rows * 3200);
    lemma_put(ran(p), hidden, hv);
    lemma_push(p4, s5);
    let rv = made(Layer::Relu, seq![hv], rows * 3200);
    lemma_put(ran(p4), hidden, rv);
    assert(ran(p5) == ran(p4).put(hidden, rv));
    assert(sane(p5));
    lemma_take(p5, rows * 512);
    assert(p9 == p8.push(s9));
    lemma_push(p8, s9);
    let yv = m.linear(rv, rows, 3200, 512, w2, b2);
    assert(yv.len() == rows * 512);
    lemma_put(ran(p5), output, yv);
    assert(ran(p9) == ran(p5).put(output, yv));
    assert(sane(p9));
    assert(ran(p9).get(x) == ran(p).get(x));
    lemma_add_norm(p9, x, output, rows, name);
    assert(ran(q) == ran(p10));
    assert(kept(ran(p), ran(p4), mark, x, none));
    assert(kept(ran(p4), ran(p5), mark, x, none));
    assert(kept(ran(p5), ran(p9), mark, x, none));
    assert(kept(ran(p9), ran(q), mark, x, none));
    lemma_kept(ran(p), ran(p4), ran(p5), mark, x, none);
    lemma_kept(ran(p), ran(p5), ran(p9), mark, x, none);
    lemma_kept(ran(p), ran(p9), ran(q), mark, x, none);
}

proof fn lemma_add_norm_errors(p: PlanView, x: Buffer, y: Buffer, rows: int, name: Seq<u8>)
    ensures
        p.error is Some ==> p.add_norm(x, y, rows, name).error is Some,
{
    reveal(PlanView::add_norm);
}

proof fn lemma_feed_forward_errors(
    p: PlanView,
    x: Buffer,
    rows: int,
    prefix: Seq<u8>,
    norm: &str,
    mark: int,
)
    ensures
        p.error is Some ==> p.feed_forward(x, rows, prefix, norm, mark).error is Some,
{
    reveal(PlanView::feed_forward);
    reveal(PlanView::add_norm);
}

#[verifier::spinoff_prover]
proof fn lemma_encoder_layer(p: PlanView, x: Buffer, pos: Buffer, prefix: Seq<u8>, mark: int)
    requires
        sane(p),
        p.top == mark,
        x.inside(mark),
        pos.inside(mark),
        x.apart(pos),
        x.len == 246_784,
        pos.len == 246_784,
        p.encoder_layer(x, pos, prefix, mark).error is None,
    ensures
        ({
            let q = p.encoder_layer(x, pos, prefix, mark);
            &&& p.error is None
            &&& onward(p, q)
            &&& q.top == mark
            &&& ran(q).get(x) == model(p).encoder_layer(ran(p).get(x), ran(p).get(pos), prefix)
            &&& kept(ran(p), ran(q), mark, x, nowhere())
        }),
{
    reveal(PlanView::encoder_layer);
    reveal(Model::encoder_layer);
    lemma_ran_len(p);
    let none = nowhere();
    let (p1, a) = p.attention(x, pos, x, pos, x, 482, 482, prefix, "self_attn");
    let n1 = prefix + text(".norm1");
    let p2 = p1.add_norm(x, a, 482, n1);
    let p3 = p2.reset(mark);
    let q = p3.feed_forward(x, 482, prefix, "norm2", mark);
    assert(q == p.encoder_layer(x, pos, prefix, mark));
    lemma_feed_forward_errors(p3, x, 482, prefix, "norm2", mark);
    lemma_add_norm_errors(p1, x, a, 482, n1);
    lemma_attention(p, x, pos, x, pos, 482, 482, prefix, "self_attn");
    lemma_ran_len(p1);
    lemma_kept_get(ran(p), ran(p1), mark, none, none, x);
    lemma_add_norm(p1, x, a, 482, n1);
    assert(ran(p3) == ran(p2));
    lemma_feed_forward(p3, x, 482, prefix, "norm2", mark);
    assert(kept(ran(p), ran(p1), mark, x, none));
    assert(kept(ran(p1), ran(p3), mark, x, none));
    lemma_kept(ran(p), ran(p1), ran(p3), mark, x, none);
    lemma_kept(ran(p), ran(p3), ran(q), mark, x, none);
}

proof fn lemma_encoder_layers(p: PlanView, i: int, x: Buffer, pos: Buffer, mark: int)
    requires
        sane(p),
        p.top == mark,
        x.inside(mark),
        pos.inside(mark),
        x.apart(pos),
        x.len == 246_784,
        pos.len == 246_784,
        0 <= i <= 4,
        p.encoder_layers(i, x, pos, mark).error is None,
    ensures
        ({
            let q = p.encoder_layers(i, x, pos, mark);
            &&& p.error is None
            &&& onward(p, q)
            &&& q.top == mark
            &&& ran(q).get(x) == model(p).encoder(ran(p).get(x), ran(p).get(pos), i)
            &&& kept(ran(p), ran(q), mark, x, nowhere())
        }),
    decreases 4 - i,
{
    reveal_with_fuel(Model::encoder, 2);
    lemma_ran_len(p);
    if i < 4 {
        let prefix = text(plan::encoder_prefix(i));
        let p1 = p.encoder_layer(x, pos, prefix, mark);
        let step = Step::Done(InferenceStage::EncoderLayer { layer: i as u8 });
        let p2 = p1.push(step);
        if p1.error is Some {
            lemma_encoder_errors(p2, i + 1, x, pos, mark);
        }
        lemma_encoder_layer(p, x, pos, prefix, mark);
        lemma_push(p1, step);
        assert(ran(p2) == ran(p1));
        lemma_kept_get(ran(p), ran(p2), mark, x, nowhere(), pos);
        lemma_encoder_layers(p2, i + 1, x, pos, mark);
        lemma_kept(
            ran(p),
            ran(p2),
            ran(p2.encoder_layers(i + 1, x, pos, mark)),
            mark,
            x,
            nowhere(),
        );
    }
}

proof fn lemma_attention_errors(
    p: PlanView,
    x: Buffer,
    x_pos: Buffer,
    y: Buffer,
    y_pos: Buffer,
    rows: int,
    y_rows: int,
    prefix: Seq<u8>,
    module: &str,
)
    ensures
        p.error is Some ==> p.attention(
            x,
            x_pos,
            y,
            y_pos,
            y,
            rows,
            y_rows,
            prefix,
            module,
        ).0.error is Some,
{
    reveal(PlanView::attention);
    reveal(PlanView::attend);
}

proof fn lemma_encoder_errors(p: PlanView, i: int, x: Buffer, pos: Buffer, mark: int)
    requires
        p.error is Some,
    ensures
        p.encoder_layers(i, x, pos, mark).error is Some,
    decreases 4 - i,
{
    if i < 4 {
        reveal(PlanView::encoder_layer);
        let prefix = text(plan::encoder_prefix(i));
        lemma_attention_errors(p, x, pos, x, pos, 482, 482, prefix, "self_attn");
        let (p1, a) = p.attention(x, pos, x, pos, x, 482, 482, prefix, "self_attn");
        lemma_add_norm_errors(p1, x, a, 482, prefix + text(".norm1"));
        let p2 = p1.add_norm(x, a, 482, prefix + text(".norm1"));
        lemma_feed_forward_errors(p2.reset(mark), x, 482, prefix, "norm2", mark);
        let q = p.encoder_layer(x, pos, prefix, mark).push(
            Step::Done(InferenceStage::EncoderLayer { layer: i as u8 }),
        );
        lemma_encoder_errors(q, i + 1, x, pos, mark);
    }
}


#[verifier::spinoff_prover]
#[verifier::rlimit(40)]
proof fn lemma_decoder_layer(
    p: PlanView,
    x: Buffer,
    x_pos: Buffer,
    y: Buffer,
    y_pos: Buffer,
    mark: int,
)
    requires
        sane(p),
        p.top == mark,
        x.inside(mark),
        x_pos.inside(mark),
        y.inside(mark),
        y_pos.inside(mark),
        x.apart(x_pos) && x.apart(y) && x.apart(y_pos),
        x.len == 51_200,
        p.decoder_layer(x, x_pos, y, y_pos, mark).error is None,
    ensures
        ({
            let q = p.decoder_layer(x, x_pos, y, y_pos, mark);
            &&& p.error is None
            &&& onward(p, q)
            &&& q.top == mark
            &&& ran(q).get(x) == model(p).decoder(
                ran(p).get(x),
                ran(p).get(x_pos),
                ran(p).get(y),
                ran(p).get(y_pos),
            )
            &&& kept(ran(p), ran(q), mark, x, nowhere())
        }),
{
    reveal(PlanView::decoder_layer);
    reveal(Model::decoder);
    lemma_ran_len(p);
    let none = nowhere();
    let prefix = text("model.decoder.layers.0");
    let n1 = prefix + text(".norm1");
    let n2 = prefix + text(".norm2");
    let (p1, own) = p.attention(x, x_pos, x, x_pos, x, 100, 100, prefix, "self_attn");
    let p2 = p1.add_norm(x, own, 100, n1);
    let p3 = p2.reset(mark);
    let (p4, cross) = p3.attention(x, x_pos, y, y_pos, y, 100, 482, prefix, "multihead_attn");
    let p5 = p4.add_norm(x, cross, 100, n2);
    let p6 = p5.reset(mark);
    let q = p6.feed_forward(x, 100, prefix, "norm3", mark);
    assert(q == p.decoder_layer(x, x_pos, y, y_pos, mark));
    lemma_feed_forward_errors(p6, x, 100, prefix, "norm3", mark);
    lemma_add_norm_errors(p4, x, cross, 100, n2);
    lemma_attention_errors(p3, x, x_pos, y, y_pos, 100, 482, prefix, "multihead_attn");
    lemma_add_norm_errors(p1, x, own, 100, n1);
    lemma_attention(p, x, x_pos, x, x_pos, 100, 100, prefix, "self_attn");
    lemma_ran_len(p1);
    lemma_kept_get(ran(p), ran(p1), mark, none, none, x);
    lemma_add_norm(p1, x, own, 100, n1);
    assert(ran(p3) == ran(p2));
    assert(kept(ran(p), ran(p1), mark, x, none));
    assert(kept(ran(p1), ran(p3), mark, x, none));
    lemma_kept(ran(p), ran(p1), ran(p3), mark, x, none);
    lemma_ran_len(p3);
    lemma_kept_get(ran(p), ran(p3), mark, x, none, x_pos);
    lemma_kept_get(ran(p), ran(p3), mark, x, none, y);
    lemma_kept_get(ran(p), ran(p3), mark, x, none, y_pos);
    lemma_attention(p3, x, x_pos, y, y_pos, 100, 482, prefix, "multihead_attn");
    lemma_ran_len(p4);
    lemma_kept_get(ran(p3), ran(p4), mark, none, none, x);
    lemma_add_norm(p4, x, cross, 100, n2);
    assert(ran(p6) == ran(p5));
    assert(kept(ran(p3), ran(p4), mark, x, none));
    assert(kept(ran(p4), ran(p6), mark, x, none));
    lemma_kept(ran(p), ran(p3), ran(p4), mark, x, none);
    lemma_kept(ran(p), ran(p4), ran(p6), mark, x, none);
    lemma_feed_forward(p6, x, 100, prefix, "norm3", mark);
    lemma_kept(ran(p), ran(p6), ran(q), mark, x, none);
}

#[verifier::spinoff_prover]
proof fn lemma_prepare(p: PlanView, encoder: Buffer, encoder_pos: Buffer)
    requires
        sane(p),
        encoder.len == 246_784,
        encoder_pos.len == 246_784,
        encoder.inside(p.top),
        encoder_pos.inside(p.top),
        encoder.apart(encoder_pos),
        p.prepare_scalar_tokens(encoder, encoder_pos).error is None,
    ensures
        ({
            let q = p.prepare_scalar_tokens(encoder, encoder_pos);
            let m = model(p);
            &&& p.error is None
            &&& onward(p, q)
            &&& q.top == p.top
            &&& ran(q).floats.len() == p.len
            &&& ran(q).get(encoder.piece(0, 512)) == stored(
                m.weight(text("model.encoder_latent_input_proj.bias"), seq![512int]),
                512,
            )
            &&& ran(q).get(encoder.piece(512, 512)) == m.linear(
                Seq::new(6, |k: int| Value::State { k }),
                1,
                6,
                512,
                m.weight(text("model.encoder_robot_state_input_proj.weight"), seq![512int, 6]),
                m.weight(text("model.encoder_robot_state_input_proj.bias"), seq![512int]),
            )
            &&& ran(q).get(encoder_pos.piece(0, 1024)) == stored(
                m.weight(text("model.encoder_1d_feature_pos_embed.weight"), seq![2int, 512]),
                1024,
            )
        }),
{
    reveal(PlanView::prepare_scalar_tokens);
    lemma_ran_len(p);
    let m = model(p);
    let first = encoder.piece(0, 512);
    let second = encoder.piece(512, 512);
    let at = encoder_pos.piece(0, 1024);
    let ln = text("model.encoder_latent_input_proj.bias");
    let wn = text("model.encoder_robot_state_input_proj.weight");
    let bn = text("model.encoder_robot_state_input_proj.bias");
    let en = text("model.encoder_1d_feature_pos_embed.weight");
    lemma_weight(p, ln, seq![512int]);
    let (p1, latent) = p.weight(ln, seq![512int]);
    let s2 = Step::CopyWeight { weight: latent, to: first };
    let p2 = p1.push(s2);
    lemma_weight(p2, wn, seq![512int, 6]);
    let (p3, weight) = p2.weight(wn, seq![512int, 6]);
    lemma_weight(p3, bn, seq![512int]);
    let (p4, bias) = p3.weight(bn, seq![512int]);
    let s5 = Step::Linear {
        input: Operand::State,
        rows: 1,
        input_dim: 6,
        weight,
        bias,
        output: Operand::Buffer(second),
        output_dim: 512,
    };
    let p5 = p4.linear(Operand::State, 1, 6, weight, bias, Operand::Buffer(second), 512);
    lemma_weight(p5, en, seq![2int, 512]);
    let (p6, pos) = p5.weight(en, seq![2int, 512]);
    let s7 = Step::CopyWeight { weight: pos, to: at };
    let q = p6.push(s7);
    assert(q == p.prepare_scalar_tokens(encoder, encoder_pos));
    assert(p6.error is None && p5.error is None && p4.error is None && p1.error is None);
    lemma_push(p1, s2);
    lemma_put(ran(p), first, stored(latent, 512));
    assert(p5 == p4.push(s5));
    lemma_push(p4, s5);
    let sv = m.linear(Seq::new(6, |k: int| Value::State { k }), 1, 6, 512, weight, bias);
    assert(sv.len() == 512);
    lemma_put(ran(p2), second, sv);
    assert(ran(p5) == ran(p2).put(second, sv));
    lemma_push(p6, s7);
    lemma_put(ran(p5), at, stored(pos, 1024));
    assert(first.apart(second) && first.apart(at) && second.apart(at));
}

proof fn lemma_action_head(p: PlanView, decoder: Buffer)
    requires
        sane(p),
        decoder.inside(p.len),
        decoder.len == 51_200,
        p.action_head(decoder).error is None,
    ensures
        ({
            let q = p.action_head(decoder);
            let m = model(p);
            let normalized = made(
                Layer::LayerNorm {
                    rows: 100,
                    weight: m.weight(text("model.decoder.norm.weight"), seq![512int]),
                    bias: m.weight(text("model.decoder.norm.bias"), seq![512int]),
                },
                seq![ran(p).get(decoder)],
                51_200,
            );
            let raw = m.linear(
                normalized,
                100,
                512,
                6,
                m.weight(text("model.action_head.weight"), seq![6int, 512]),
                m.weight(text("model.action_head.bias"), seq![6int]),
            );
            &&& p.error is None
            &&& onward(p, q)
            &&& ran(q).actions == made(Layer::Denormalize, seq![raw], 600)
        }),
{
    reveal(PlanView::action_head);
    lemma_ran_len(p);
    let m = model(p);
    let nw = text("model.decoder.norm.weight");
    let nb = text("model.decoder.norm.bias");
    let hw = text("model.action_head.weight");
    let hb = text("model.action_head.bias");
    lemma_weight(p, nw, seq![512int]);
    let (p1, w1) = p.weight(nw, seq![512int]);
    lemma_weight(p1, nb, seq![512int]);
    let (p2, b1) = p1.weight(nb, seq![512int]);
    let s3 = Step::LayerNorm { buffer: decoder, rows: 100, weight: w1, bias: b1 };
    let p3 = p2.push(s3);
    lemma_weight(p3, hw, seq![6int, 512]);
    let (p4, weight) = p3.weight(hw, seq![6int, 512]);
    lemma_weight(p4, hb, seq![6int]);
    let (p5, bias) = p4.weight(hb, seq![6int]);
    let s6 = Step::Linear {
        input: Operand::Buffer(decoder),
        rows: 100,
        input_dim: 512,
        weight,
        bias,
        output: Operand::Actions,
        output_dim: 6,
    };
    let p6 = p5.linear(Operand::Buffer(decoder), 100, 512, weight, bias, Operand::Actions, 6);
    let p7 = p6.push(Step::DenormalizeActions);
    let s8 = Step::Done(InferenceStage::ActionHead);
    let q = p7.push(s8);
    assert(q == p.action_head(decoder));
    assert(p6.error is None && p5.error is None && p3.error is None && p2.error is None);
    lemma_push(p2, s3);
    let nv = made(
        Layer::LayerNorm { rows: 100, weight: w1, bias: b1 },
        seq![ran(p).get(decoder)],
        51_200,
    );
    lemma_put(ran(p), decoder, nv);
    assert(p6 == p5.push(s6));
    lemma_push(p5, s6);
    let raw = m.linear(nv, 100, 512, 6, weight, bias);
    assert(raw.len() == 600);
    assert(ran(p6).actions == raw);
    lemma_push(p6, Step::DenormalizeActions);
    lemma_push(p7, s8);
}

/// The buffers of the tokens hold their parts side by side.
proof fn lemma_joined(r: Run, b: Buffer, x: Seq<Value>, y: Seq<Value>, z: Seq<Value>, u: Seq<Value>)
    requires
        b.len == 246_784,
        b.offset + b.len <= usize::MAX,
        b.inside(r.floats.len() as int),
        x.len() + y.len() == 1024,
        z.len() == 122_880,
        u.len() == 122_880,
        r.get(b.piece(0, x.len() as int)) == x,
        r.get(b.piece(x.len() as int, y.len() as int)) == y,
        r.get(b.piece(1024, 122_880)) == z,
        r.get(b.piece(123_904, 122_880)) == u,
    ensures
        r.get(b) == x + y + z + u,
{
    let all = x + y + z + u;
    assert(all.len() == 246_784);
    let n = x.len() as int;
    assert forall|k: int| 0 <= k < 246_784 implies r.get(b)[k] == all[k] by {
        assert(r.get(b)[k] == r.floats[b.offset + k]);
        if k < n {
            assert(r.get(b.piece(0, n))[k] == r.floats[b.offset + k]);
        } else if k < 1024 {
            assert(r.get(b.piece(n, y.len() as int))[k - n] == r.floats[b.offset + k]);
        } else if k < 123_904 {
            assert(r.get(b.piece(1024, 122_880))[k - 1024] == r.floats[b.offset + k]);
        } else {
            assert(r.get(b.piece(123_904, 122_880))[k - 123_904] == r.floats[b.offset + k]);
        }
    }
    assert(r.get(b) =~= all);
}

/// Running the steps of a pass that is laid out without error gives the actions of the network:
/// every layer gets what the layers before it made, with its own weights, and no buffer is
/// overwritten before it is read for the last time.
#[verifier::spinoff_prover]
#[verifier::rlimit(60)]
pub proof fn law_pass_computes_network(p: PlanView)
    requires
        crate::act::dataflow::sane_start(p),
        p.predict().error is None,
    ensures
        fresh(p.len).after_all(p.predict().steps).actions == (Model {
            file: p.file,
            address: p.address,
        }).actions(),
{
    let m = model(p);
    let none = nowhere();
    let pn = text("model.decoder_pos_embed.weight");
    assert(plan::ENCODER_TOKENS * plan::MODEL_DIM == 246_784) by (nonlinear_arith);
    assert(plan::ACTION_STEPS * plan::MODEL_DIM == 51_200) by (nonlinear_arith);
    let (p1, encoder) = p.take_floats(246_784);
    let (p2, encoder_pos) = p1.take_floats(246_784);
    let (p3, decoder) = p2.take_floats(51_200);
    let (p4, decoder_pos) = p3.take_floats(51_200);
    let p5 = p4.prepare_scalar_tokens(encoder, encoder_pos);
    lemma_weight(p5, pn, seq![100int, 512]);
    let (p6, weight) = p5.weight(pn, seq![100int, 512]);
    let s7 = Step::CopyWeight { weight, to: decoder_pos };
    let p7 = p6.push(s7);
    let s8 = Step::Zero { to: decoder };
    let p8 = p7.push(s8);
    let s9 = Step::Done(InferenceStage::InputPrepared);
    let p9 = p8.push(s9);
    let mark = p9.top;
    let p10 = p9.encode_camera(encoder, encoder_pos, 2, 0);
    let p11 = p10.reset(mark);
    let p12 = p11.encode_camera(encoder, encoder_pos, 242, 1);
    let p13 = p12.reset(mark);
    let p14 = p13.encoder_layers(0, encoder, encoder_pos, mark);
    let p15 = p14.decoder_layer(decoder, decoder_pos, encoder, encoder_pos, mark);
    let s16 = Step::Done(InferenceStage::Decoder);
    let p16 = p15.push(s16);
    let q = p16.action_head(decoder);
    assert(q == p.predict());
    lemma_late_errors(p11, p13, p14, p16, decoder, decoder_pos, encoder, encoder_pos, mark);
    lemma_early_errors(p4, p9, encoder, encoder_pos);
    assert(p9.error is None && p8.error is None && p5.error is None && p4.error is None);
    assert(p3.error is None && p2.error is None && p1.error is None);
    assert(sane(p));
    lemma_take(p, 246_784);
    lemma_take(p1, 246_784);
    lemma_take(p2, 51_200);
    lemma_take(p3, 51_200);
    lemma_prepare(p4, encoder, encoder_pos);
    assert(sane(p5));
    lemma_push(p6, s7);
    let dp = stored(weight, 51_200);
    lemma_put(ran(p5), decoder_pos, dp);
    lemma_push(p7, s8);
    let zeros = Seq::new(51_200, |k: int| Value::Zero);
    lemma_put(ran(p7), decoder, zeros);
    lemma_push(p8, s9);
    assert(ran(p9) == ran(p7).put(decoder, zeros));
    let first = encoder.piece(0, 512);
    let second = encoder.piece(512, 512);
    let pos = encoder_pos.piece(0, 1024);
    let e0 = encoder.piece(1024, 122_880);
    let e1 = encoder.piece(123_904, 122_880);
    let q0 = encoder_pos.piece(1024, 122_880);
    let q1 = encoder_pos.piece(123_904, 122_880);
    lemma_encode_camera(p9, encoder, encoder_pos, 2, 0);
    assert(ran(p11) == ran(p10));
    lemma_ran_len(p11);
    lemma_encode_camera(p11, encoder, encoder_pos, 242, 1);
    assert(ran(p13) == ran(p12));
    lemma_ran_len(p13);
    let r9 = ran(p9);
    let r11 = ran(p11);
    let r13 = ran(p13);
    lemma_kept_get(r9, r11, mark, e0, q0, first);
    lemma_kept_get(r9, r11, mark, e0, q0, second);
    lemma_kept_get(r9, r11, mark, e0, q0, pos);
    lemma_kept_get(r9, r11, mark, e0, q0, decoder);
    lemma_kept_get(r9, r11, mark, e0, q0, decoder_pos);
    lemma_kept_get(r11, r13, mark, e1, q1, first);
    lemma_kept_get(r11, r13, mark, e1, q1, second);
    lemma_kept_get(r11, r13, mark, e1, q1, pos);
    lemma_kept_get(r11, r13, mark, e1, q1, decoder);
    lemma_kept_get(r11, r13, mark, e1, q1, decoder_pos);
    lemma_kept_get(r11, r13, mark, e1, q1, e0);
    lemma_kept_get(r11, r13, mark, e1, q1, q0);
    let lv = stored(m.weight(text("model.encoder_latent_input_proj.bias"), seq![512int]), 512);
    let sv = m.linear(
        Seq::new(6, |k: int| Value::State { k }),
        1,
        6,
        512,
        m.weight(text("model.encoder_robot_state_input_proj.weight"), seq![512int, 6]),
        m.weight(text("model.encoder_robot_state_input_proj.bias"), seq![512int]),
    );
    let pv = stored(
        m.weight(text("model.encoder_1d_feature_pos_embed.weight"), seq![2int, 512]),
        1024,
    );
    let image = Seq::new(122_880, |k: int| Value::Position { k });
    assert(r13.get(first) == lv && r13.get(second) == sv && r13.get(pos) == pv);
    assert(sv.len() == 512);
    assert(r13.get(e0).len() == 122_880 && r13.get(e1).len() == 122_880);
    lemma_joined(r13, encoder, lv, sv, m.image_tokens(0), m.image_tokens(1));
    reveal(Model::tokens);
    reveal(Model::positions);
    assert(r13.get(encoder) == m.tokens());
    let empty = Seq::<Value>::empty();
    assert(r13.get(encoder_pos.piece(1024, 0)) =~= empty);
    lemma_joined(r13, encoder_pos, pv, empty, image, image);
    assert(pv + empty =~= pv);
    assert(r13.get(encoder_pos) == m.positions());
    assert(r13.get(decoder) == zeros);
    assert(r13.get(decoder_pos) == dp);
    lemma_encoder_layers(p13, 0, encoder, encoder_pos, mark);
    lemma_ran_len(p14);
    lemma_kept_get(r13, ran(p14), mark, encoder, none, encoder_pos);
    lemma_kept_get(r13, ran(p14), mark, encoder, none, decoder);
    lemma_kept_get(r13, ran(p14), mark, encoder, none, decoder_pos);
    lemma_decoder_layer(p14, decoder, decoder_pos, encoder, encoder_pos, mark);
    lemma_push(p15, s16);
    assert(ran(p16) == ran(p15));
    lemma_action_head(p16, decoder);
}

/// What goes wrong before the last layers stays wrong.
proof fn lemma_late_errors(
    p11: PlanView,
    p13: PlanView,
    p14: PlanView,
    p16: PlanView,
    decoder: Buffer,
    decoder_pos: Buffer,
    encoder: Buffer,
    encoder_pos: Buffer,
    mark: int,
)
    requires
        p13 == p11.encode_camera(encoder, encoder_pos, 242, 1).reset(mark),
        p14 == p13.encoder_layers(0, encoder, encoder_pos, mark),
        p16 == p14.decoder_layer(decoder, decoder_pos, encoder, encoder_pos, mark).push(
            Step::Done(InferenceStage::Decoder),
        ),
        p16.action_head(decoder).error is None,
    ensures
        p16.error is None,
        p14.error is None,
        p13.error is None,
        p11.error is None,
{
    reveal(PlanView::action_head);
    assert(p16.error is None);
    if p14.error is Some {
        reveal(PlanView::decoder_layer);
        let prefix = text("model.decoder.layers.0");
        let x = decoder;
        let x_pos = decoder_pos;
        let n1 = prefix + text(".norm1");
        let n2 = prefix + text(".norm2");
        let (a, own) = p14.attention(x, x_pos, x, x_pos, x, 100, 100, prefix, "self_attn");
        lemma_attention_errors(p14, x, x_pos, x, x_pos, 100, 100, prefix, "self_attn");
        lemma_add_norm_errors(a, x, own, 100, n1);
        let b = a.add_norm(x, own, 100, n1).reset(mark);
        let y = encoder;
        let y_pos = encoder_pos;
        lemma_attention_errors(b, x, x_pos, y, y_pos, 100, 482, prefix, "multihead_attn");
        let (c, cross) = b.attention(x, x_pos, y, y_pos, y, 100, 482, prefix, "multihead_attn");
        lemma_add_norm_errors(c, x, cross, 100, n2);
        let d = c.add_norm(x, cross, 100, n2).reset(mark);
        lemma_feed_forward_errors(d, x, 100, prefix, "norm3", mark);
    }
    if p13.error is Some {
        lemma_encoder_errors(p13, 0, encoder, encoder_pos, mark);
    }
    if p11.error is Some {
        lemma_camera_errors(p11, encoder, encoder_pos, 242, 1);
    }
}

proof fn lemma_camera_errors(
    p: PlanView,
    encoder: Buffer,
    encoder_pos: Buffer,
    token: int,
    camera: u8,
)
    requires
        p.error is Some,
    ensures
        p.encode_camera(encoder, encoder_pos, token, camera).error is Some,
{
    reveal(PlanView::encode_camera);
    reveal(PlanView::backbone);
    reveal(PlanView::camera_stem);
    reveal(PlanView::conv_norm);
    let (q, a, b, c, im2col) = p.camera_stem(camera);
    assert(q.error is Some);
    lemma_blocks_errors(q, 0, a, 90, 160, a, b, c, im2col, camera);
}

proof fn lemma_early_errors(p4: PlanView, p9: PlanView, encoder: Buffer, encoder_pos: Buffer)
    ensures
        p9.error is Some ==> p9.encode_camera(encoder, encoder_pos, 2, 0).error is Some,
        p4.error is Some ==> p4.prepare_scalar_tokens(encoder, encoder_pos).error is Some,
{
    if p9.error is Some {
        lemma_camera_errors(p9, encoder, encoder_pos, 2, 0);
    }
    reveal(PlanView::prepare_scalar_tokens);
}

} // verus!
