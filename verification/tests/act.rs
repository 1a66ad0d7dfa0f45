use exokernel::act::engine::ActModel;
use exokernel::act::kernels::{im2col_row, jobs_in_parallel, max_pool_window, rows_in_parallel};
use exokernel::act::plan::{
    Buffer, Conv, InferenceStage, Operand, Step, Weight, WORKSPACE_FLOATS,
};
use exokernel::act::safetensors::SafeTensors;
use exokernel::act::{Error, KernelProvider, LoadOptions};

/// A file with this header, padded with spaces, and these bytes behind it.
fn file_of(header: &str, data: &[u8]) -> Vec<u8> {
    let mut header = header.as_bytes().to_vec();
    while (8 + header.len()) & 7 != 0 {
        header.push(b' ');
    }
    let mut file = Vec::new();
    file.extend_from_slice(&(header.len() as u64).to_le_bytes());
    file.extend_from_slice(&header);
    file.extend_from_slice(data);
    file
}

fn floats(bytes: &[u8]) -> Vec<f32> {
    bytes.chunks(4).map(|b| f32::from_le_bytes([b[0], b[1], b[2], b[3]])).collect()
}

fn error_of(header: &str, data: &[u8], name: &str) -> Error {
    let file = file_of(header, data);
    match SafeTensors::parse(&file) {
        Err(error) => error,
        Ok(tensors) => match tensors.tensor(name) {
            Err(error) => error,
            Ok(_) => panic!("tensor found"),
        },
    }
}

#[test]
fn parses_f32_tensor_without_copying() {
    let mut data = Vec::new();
    data.extend_from_slice(&1.25f32.to_le_bytes());
    data.extend_from_slice(&(-2.5f32).to_le_bytes());
    let file = file_of(r#"{"x":{"dtype":"F32","shape":[2],"data_offsets":[0,8]}}"#, &data);
    let tensors = SafeTensors::parse(&file).ok().unwrap();
    let tensor = tensors.tensor("x").ok().unwrap();
    assert_eq!(tensor.shape(), &[2]);
    assert_eq!(floats(tensor.f32_data(0).unwrap()), [1.25, -2.5]);
    assert_eq!(tensor.element_count(), 2);
}

#[test]
fn misaligned_floats_are_refused() {
    let file = file_of(r#"{"x":{"dtype":"F32","shape":[2],"data_offsets":[0,8]}}"#, &[7; 8]);
    let tensors = SafeTensors::parse(&file).ok().unwrap();
    let tensor = tensors.tensor("x").ok().unwrap();
    assert_eq!(tensor.f32_data(0x1000).unwrap(), &[7; 8]);
    assert_eq!(tensor.f32_data(0x1002).err(), Some(Error::InvalidSafetensors));
}

#[test]
fn unsound_frames_are_refused() {
    let frames: [Vec<u8>; 5] = [
        vec![0; 7],
        // A header of one byte.
        vec![1, 0, 0, 0, 0, 0, 0, 0, b'{'],
        // A header longer than the file.
        vec![16, 0, 0, 0, 0, 0, 0, 0, b'{', b'}'],
        // Data that does not start at a multiple of eight.
        vec![2, 0, 0, 0, 0, 0, 0, 0, b'{', b'}'],
        // No braces.
        vec![8, 0, 0, 0, 0, 0, 0, 0, b'[', b' ', b' ', b' ', b' ', b' ', b' ', b']'],
    ];
    for frame in frames.iter() {
        assert_eq!(SafeTensors::parse(frame).err(), Some(Error::InvalidSafetensors));
    }
    let sound = vec![8, 0, 0, 0, 0, 0, 0, 0, b'{', b'}', b'\n', b'\t', b'\r', 0x0c, b' ', b' '];
    assert_eq!(SafeTensors::parse(&sound).ok().unwrap().header, b"{}");
}

#[test]
fn each_fault_of_a_tensor_has_its_error() {
    let x = r#"{"x":{"dtype":"F32","shape":[2],"data_offsets":[0,8]}}"#;
    assert_eq!(error_of(x, &[0; 8], "y"), Error::TensorNotFound);
    // The data ends before the tensor does.
    assert_eq!(error_of(x, &[0; 7], "x"), Error::InvalidSafetensors);
    let half = r#"{"x":{"dtype":"F16","shape":[2],"data_offsets":[0,8]}}"#;
    assert_eq!(error_of(half, &[0; 8], "x"), Error::UnsupportedDtype);
    let wrong = r#"{"x":{"dtype":"F32","shape":[3],"data_offsets":[0,8]}}"#;
    assert_eq!(error_of(wrong, &[0; 8], "x"), Error::ShapeMismatch);
    let deep = r#"{"x":{"dtype":"F32","shape":[1,1,1,1,2],"data_offsets":[0,8]}}"#;
    assert_eq!(error_of(deep, &[0; 8], "x"), Error::ShapeMismatch);
    let back = r#"{"x":{"dtype":"F32","shape":[2],"data_offsets":[8,0]}}"#;
    assert_eq!(error_of(back, &[0; 8], "x"), Error::InvalidSafetensors);
    let huge = r#"{"x":{"dtype":"F32","shape":[99999999999999999999999],"data_offsets":[0,8]}}"#;
    assert_eq!(error_of(huge, &[0; 8], "x"), Error::InvalidSafetensors);
    let flat = r#"{"x":[1,2]}"#;
    assert_eq!(error_of(flat, &[0; 8], "x"), Error::InvalidSafetensors);
}

#[test]
fn spaces_and_nested_braces_are_read_over() {
    let header = r#"{"__metadata__":{"format":"pt}"} , "a" : { "dtype" : "F32" ,
        "shape" : [ 1 , 2 ] , "data_offsets" : [ 4 , 12 ] } }"#;
    let file = file_of(header, &[1, 0, 0, 0, 2, 0, 0, 0, 3, 0, 0, 0]);
    let tensors = SafeTensors::parse(&file).ok().unwrap();
    let tensor = tensors.tensor("a").ok().unwrap();
    assert_eq!(tensor.shape(), &[1, 2]);
    assert_eq!(tensor.bytes, &[2, 0, 0, 0, 3, 0, 0, 0]);
    // A text that is no key is no tensor.
    assert_eq!(tensors.tensor("pt}").err(), Some(Error::TensorNotFound));
}

/// Names and shapes of all weights of the network.
fn weights() -> Vec<(String, Vec<usize>)> {
    let mut list: Vec<(String, Vec<usize>)> = Vec::new();
    let norm = |list: &mut Vec<(String, Vec<usize>)>, prefix: &str, n: usize| {
        for part in ["weight", "bias", "running_mean", "running_var"] {
            list.push((format!("{}.{}", prefix, part), vec![n]));
        }
    };
    list.push(("model.backbone.conv1.weight".to_string(), vec![64, 3, 7, 7]));
    norm(&mut list, "model.backbone.bn1", 64);
    for (layer, (ic, oc)) in [(64, 64), (64, 128), (128, 256), (256, 512)].iter().enumerate() {
        for block in 0..2 {
            let base = format!("model.backbone.layer{}.{}", layer + 1, block);
            let input = if block == 0 { *ic } else { *oc };
            list.push((format!("{}.conv1.weight", base), vec![*oc, input, 3, 3]));
            norm(&mut list, &format!("{}.bn1", base), *oc);
            list.push((format!("{}.conv2.weight", base), vec![*oc, *oc, 3, 3]));
            norm(&mut list, &format!("{}.bn2", base), *oc);
            if block == 0 && layer > 0 {
                list.push((format!("{}.downsample.0.weight", base), vec![*oc, *ic, 1, 1]));
                norm(&mut list, &format!("{}.downsample.1", base), *oc);
            }
        }
    }
    let mut layer = |prefix: &str, attentions: &[&str], norms: usize| {
        for module in attentions {
            list.push((format!("{}.{}.in_proj_weight", prefix, module), vec![1536, 512]));
            list.push((format!("{}.{}.in_proj_bias", prefix, module), vec![1536]));
            list.push((format!("{}.{}.out_proj.weight", prefix, module), vec![512, 512]));
            list.push((format!("{}.{}.out_proj.bias", prefix, module), vec![512]));
        }
        list.push((format!("{}.linear1.weight", prefix), vec![3200, 512]));
        list.push((format!("{}.linear1.bias", prefix), vec![3200]));
        list.push((format!("{}.linear2.weight", prefix), vec![512, 3200]));
        list.push((format!("{}.linear2.bias", prefix), vec![512]));
        for n in 1..norms + 1 {
            list.push((format!("{}.norm{}.weight", prefix, n), vec![512]));
            list.push((format!("{}.norm{}.bias", prefix, n), vec![512]));
        }
    };
    for i in 0..4 {
        layer(&format!("model.encoder.layers.{}", i), &["self_attn"], 2);
    }
    layer("model.decoder.layers.0", &["self_attn", "multihead_attn"], 3);
    for (name, shape) in [
        ("encoder_latent_input_proj.bias", vec![512]),
        ("encoder_robot_state_input_proj.weight", vec![512, 6]),
        ("encoder_robot_state_input_proj.bias", vec![512]),
        ("encoder_1d_feature_pos_embed.weight", vec![2, 512]),
        ("decoder_pos_embed.weight", vec![100, 512]),
        ("encoder_img_feat_input_proj.weight", vec![512, 512, 1, 1]),
        ("encoder_img_feat_input_proj.bias", vec![512]),
        ("decoder.norm.weight", vec![512]),
        ("decoder.norm.bias", vec![512]),
        ("action_head.weight", vec![6, 512]),
        ("action_head.bias", vec![6]),
    ] {
        list.push((format!("model.{}", name), shape));
    }
    list
}

/// A model file in which all weights share the same bytes.
fn model_file(leave_out: &str) -> Vec<u8> {
    let mut header = String::from("{");
    let mut longest = 0;
    for (name, shape) in weights() {
        if name == leave_out {
            continue;
        }
        let bytes: usize = 4 * shape.iter().product::<usize>();
        longest = longest.max(bytes);
        if header.len() > 1 {
            header.push(',');
        }
        let entry = format!(
            "\"{}\":{{\"dtype\":\"F32\",\"shape\":{:?},\"data_offsets\":[0,{}]}}",
            name, shape, bytes
        );
        header.push_str(&entry);
    }
    header.push('}');
    file_of(&header, &vec![0; longest])
}

#[test]
fn a_model_of_another_network_is_refused() {
    let file = model_file("model.action_head.weight");
    let loaded = ActModel::<u8>::load(&file, 0, Ok(1));
    assert_eq!(loaded.err(), Some(Error::TensorNotFound));
    let file = file_of(
        r#"{"model.backbone.conv1.weight":{"dtype":"F32","shape":[2],"data_offsets":[0,8]}}"#,
        &[0; 8],
    );
    assert_eq!(ActModel::<u8>::load(&file, 0, Ok(1)).err(), Some(Error::ShapeMismatch));
    // The frame comes first, then the normalization.
    let unread: Result<u8, Error> = Err(Error::UnsupportedDtype);
    assert_eq!(ActModel::<u8>::load(&file, 0, unread).err(), Some(Error::UnsupportedDtype));
    assert_eq!(ActModel::<u8>::load(&[], 0, unread).err(), Some(Error::InvalidSafetensors));
}

#[test]
fn options_choose_provider_and_threads() {
    let file = model_file("");
    let portable = LoadOptions { provider: KernelProvider::PortableNeon, threads: 0 };
    let acl = LoadOptions { provider: KernelProvider::AclNeon, threads: 3 };
    let model = ActModel::load_with_options(&file, 0, Ok(9u8), portable).ok().unwrap();
    assert_eq!(model.kernel_provider(), KernelProvider::PortableNeon);
    assert_eq!(model.kernel_threads(), 1);
    assert_eq!(*model.normalization(), 9);
    let four = LoadOptions { provider: KernelProvider::PortableNeon, threads: 4 };
    let model = ActModel::load_with_options(&file, 0, Ok(9u8), four).ok().unwrap();
    assert_eq!(model.kernel_threads(), 4);
    assert_eq!(
        ActModel::load_with_options(&file, 0, Ok(9u8), acl).err(),
        Some(Error::AclProviderUnavailable)
    );
    assert_eq!(ActModel::<u8>::required_persistent_bytes(&file, &[], portable), Ok(0));
    assert_eq!(
        ActModel::<u8>::required_persistent_bytes(&file, &[], acl),
        Err(Error::AclProviderUnavailable)
    );
}

#[test]
fn a_pass_reports_its_stages_in_order() {
    let file = model_file("");
    let model = ActModel::load(&file, 0, Ok(())).ok().unwrap();
    let plan = model.predict_with_progress(WORKSPACE_FLOATS);
    assert_eq!(plan.error, None);
    let stages: Vec<InferenceStage> = plan
        .steps
        .iter()
        .filter_map(|step| match step {
            Step::Done(stage) => Some(*stage),
            _ => None,
        })
        .collect();
    let mut expected = vec![InferenceStage::InputPrepared];
    for camera in 0..2 {
        expected.push(InferenceStage::CameraNormalized { camera });
        expected.push(InferenceStage::CameraStem { camera });
        for block in 0..8 {
            expected.push(InferenceStage::CameraBlock { camera, block });
        }
        expected.push(InferenceStage::CameraProjected { camera });
    }
    for layer in 0..4 {
        expected.push(InferenceStage::EncoderLayer { layer });
    }
    expected.push(InferenceStage::Decoder);
    expected.push(InferenceStage::ActionHead);
    assert_eq!(stages, expected);
}

#[test]
fn a_pass_puts_its_buffers_one_behind_the_other() {
    let file = model_file("");
    let model = ActModel::load(&file, 0, Ok(())).ok().unwrap();
    let plan = model.predict_with_progress(WORKSPACE_FLOATS);
    let zero = Step::Zero { to: Buffer { offset: 2 * 482 * 512, len: 100 * 512 } };
    assert!(plan.steps.contains(&zero));
    let scratch = 2 * 482 * 512 + 2 * 100 * 512;
    let image = Buffer { offset: scratch, len: 360 * 640 * 3 };
    assert!(plan.steps.contains(&Step::NormalizeImage { camera: 0, to: image }));
    assert!(plan.steps.contains(&Step::NormalizeImage { camera: 1, to: image }));
    let pool = plan.steps.iter().find(|step| matches!(step, Step::MaxPool { .. }));
    assert_eq!(
        pool,
        Some(&Step::MaxPool {
            input: Buffer { offset: scratch + 691_200, len: 180 * 320 * 64 },
            input_h: 180,
            input_w: 320,
            channels: 64,
            output: Buffer { offset: scratch + 691_200 + 3_686_400, len: 90 * 160 * 64 },
        })
    );
    let convs = plan.steps.iter().filter(|step| matches!(step, Step::Conv { .. })).count();
    assert_eq!(convs, 2 * (1 + 16 + 3));
    let head = plan.steps.iter().rev().find_map(|step| match step {
        Step::Linear { input, rows, output, weight, .. } => Some((*input, *rows, *output, *weight)),
        _ => None,
    });
    let data = file.len() - 4 * 512 * 512 * 9;
    assert_eq!(
        head,
        Some((
            Operand::Buffer(Buffer { offset: 2 * 482 * 512, len: 100 * 512 }),
            100,
            Operand::Actions,
            Weight { offset: data, len: 6 * 512 },
        ))
    );
}

#[test]
fn a_missing_weight_stops_a_pass_where_it_is_needed() {
    let file = model_file("model.backbone.layer2.0.downsample.0.weight");
    let model = ActModel::load(&file, 0, Ok(())).ok().unwrap();
    let plan = model.predict_with_progress(WORKSPACE_FLOATS);
    assert_eq!(plan.error, Some(Error::TensorNotFound));
    let reached = Step::Done(InferenceStage::CameraBlock { camera: 0, block: 1 });
    let missed = Step::Done(InferenceStage::CameraBlock { camera: 0, block: 2 });
    assert!(plan.steps.contains(&reached));
    assert!(!plan.steps.contains(&missed));
    assert_eq!(model.predict(WORKSPACE_FLOATS), Err(Error::TensorNotFound));
}

#[test]
fn a_small_workspace_is_refused() {
    let file = model_file("");
    let model = ActModel::load(&file, 0, Ok(())).ok().unwrap();
    let plan = model.predict_with_progress(WORKSPACE_FLOATS - 1);
    assert_eq!(plan.error, Some(Error::WorkspaceTooSmall));
    assert_eq!(plan.steps.len(), 0);
    assert_eq!(model.predict(WORKSPACE_FLOATS - 1), Err(Error::WorkspaceTooSmall));
    let whole = model.predict_with_progress(WORKSPACE_FLOATS);
    assert_eq!(model.predict(WORKSPACE_FLOATS), Ok(whole.steps));
}

#[test]
fn absent_kernels_stop_a_pass() {
    let file = model_file("");
    let mut model = ActModel::load(&file, 0, Ok(())).ok().unwrap();
    model.provider = KernelProvider::AclNeon;
    let plan = model.predict_with_progress(WORKSPACE_FLOATS);
    assert_eq!(plan.error, Some(Error::AclProviderUnavailable));
    assert_eq!(
        plan.steps.last(),
        Some(&Step::Done(InferenceStage::CameraNormalized { camera: 0 }))
    );
}

#[test]
fn windows_skip_the_padding() {
    let conv = Conv {
        input_h: 2,
        input_w: 3,
        input_c: 2,
        output_c: 1,
        kernel: 3,
        stride: 1,
        padding: 1,
    };
    let row = im2col_row(conv, 0);
    let first = [None, None, None, None, Some(0), Some(2), None, Some(6), Some(8)];
    let second = [None, None, None, None, Some(1), Some(3), None, Some(7), Some(9)];
    assert_eq!(row[..9], first);
    assert_eq!(row[9..], second);
    assert_eq!(max_pool_window(4, 4, 2, 0, 1), [1, 3, 9, 11]);
    assert_eq!(max_pool_window(4, 4, 1, 3, 0), [5, 6, 7, 9, 10, 11, 13, 14, 15]);
}

#[test]
fn little_work_is_not_handed_out() {
    assert!(!rows_in_parallel(true, 3));
    assert!(rows_in_parallel(true, 4));
    assert!(!rows_in_parallel(false, 400));
    assert!(!jobs_in_parallel(true, 1));
    assert!(jobs_in_parallel(true, 2));
    assert!(!jobs_in_parallel(false, 2));
}
