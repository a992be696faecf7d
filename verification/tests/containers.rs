use half::f16;
use metal_llm_kernels::base_file::{
    copy_regions, find_header_end, first_tensor, frame_base_file, load_q4_regions, plan_regions,
    read_base_header, write_base_file, BaseError, Regions, TensorEntry, FORMAT_VERSION,
};
use metal_llm_kernels::convert::{quantize_safetensors_to_base, weights_to_base, ConvertError};
use metal_llm_kernels::le::{
    f32_vec_from_le_bytes, push_le, push_u16s, push_u32s, read_le,
};
use metal_llm_kernels::quantize::{quantize_q4, FloatUnit, Quantized};
use metal_llm_kernels::tensors::{
    checked_data, header_ends_past, load_fp32_w, load_tensor, LoadError,
};
use safetensors::tensor::{Dtype, TensorView};

fn unit() -> FloatUnit<
    impl Fn(u32, u32) -> u32,
    impl Fn(u32, u32) -> u32,
    impl Fn(u32, u32) -> u32,
    impl Fn(u32) -> u16,
    impl Fn(u16) -> u32,
> {
    FloatUnit {
        sub: |a: u32, b: u32| (f32::from_bits(a) - f32::from_bits(b)).to_bits(),
        mul: |a: u32, b: u32| (f32::from_bits(a) * f32::from_bits(b)).to_bits(),
        div: |a: u32, b: u32| (f32::from_bits(a) / f32::from_bits(b)).to_bits(),
        narrow: |a: u32| f16::from_f32(f32::from_bits(a)).to_bits(),
        widen: |h: u16| f16::from_bits(h).to_f32().to_bits(),
    }
}

fn small() -> Quantized {
    Quantized {
        packed_words: vec![0x8765_4321, 0x0000_00ff],
        scales: vec![0x3c00],
        biases: vec![0xbc01],
    }
}

const HEADER: &str = "{\"schema\":1,\"tensors\":[{\"bias_length\":2,\"bias_offset\":10,\
\"dtype\":\"base_q4\",\"group_size\":64,\"layout\":\"metal_lane_strided_q4\",\"length\":8,\
\"name\":\"W\",\"offset\":0,\"scale_length\":2,\"scale_offset\":8,\"shape\":[3,5]}]}";

const BLOB: [u8; 12] = [0x21, 0x43, 0x65, 0x87, 0xff, 0, 0, 0, 0x00, 0x3c, 0x01, 0xbc];

fn file_with(header: &str, blob: &[u8]) -> Vec<u8> {
    let mut file = b"BASE".to_vec();
    file.extend_from_slice(&1u32.to_le_bytes());
    file.extend_from_slice(&(header.len() as u64).to_le_bytes());
    file.extend_from_slice(header.as_bytes());
    file.extend_from_slice(blob);
    file
}

fn safetensors_file(name: &str, values: &[f32]) -> Vec<u8> {
    let mut data = Vec::new();
    for v in values {
        data.extend_from_slice(&v.to_le_bytes());
    }
    let view = TensorView::new(Dtype::F32, vec![values.len()], &data).unwrap();
    safetensors::serialize(vec![(name.to_string(), view)], None).unwrap()
}

#[test]
fn little_endian_bytes() {
    let mut out = vec![9];
    push_le(&mut out, 0x0102_0304_0506_0708, 8);
    push_le(&mut out, 0x1_2345, 2);
    assert_eq!(out, vec![9, 8, 7, 6, 5, 4, 3, 2, 1, 0x45, 0x23]);
    assert_eq!(read_le(&out, 1, 8), 0x0102_0304_0506_0708);
    assert_eq!(read_le(&out, 9, 2), 0x2345);
    assert_eq!(read_le(&out, 3, 0), 0);
    assert_eq!(read_le(&[0xff; 8], 0, 8), u64::MAX);
}

#[test]
fn words_and_bytes() {
    let mut out = Vec::new();
    push_u32s(&mut out, &[0x3f80_0000, 1]);
    assert_eq!(out, vec![0, 0, 0x80, 0x3f, 1, 0, 0, 0]);
    assert_eq!(f32_vec_from_le_bytes(&out), vec![0x3f80_0000, 1]);
    out.push(77);
    assert_eq!(f32_vec_from_le_bytes(&out), vec![0x3f80_0000, 1]);
    let mut halves = Vec::new();
    push_u16s(&mut halves, &[0x3c00, 0xbc01]);
    assert_eq!(halves, vec![0, 0x3c, 1, 0xbc]);
}

#[test]
fn regions_follow_each_other() {
    let r = plan_regions(&small());
    assert_eq!(
        r,
        Regions {
            offset: 0,
            length: 8,
            scale_offset: 8,
            scale_length: 2,
            bias_offset: 10,
            bias_length: 2
        }
    );
}

#[test]
fn written_file_byte_for_byte() {
    let file = write_base_file(&small(), 3, 5, "W");
    assert_eq!(file, file_with(HEADER, &BLOB));
    assert_eq!(FORMAT_VERSION, 1);
    assert_eq!(frame_base_file(b"{}", &small()), file_with("{}", &BLOB));
}

#[test]
fn reading_gives_back_what_was_written() {
    for name in ["W", "W_gate", "", "quote \" slash \\ line \n", "\u{1F600} \u{0}"] {
        let file = write_base_file(&small(), 3, 5, name);
        let (packed, scale, bias) = load_q4_regions(&file, name).unwrap();
        assert_eq!(packed, BLOB[..8].to_vec());
        assert_eq!(scale, BLOB[8..10].to_vec());
        assert_eq!(bias, BLOB[10..].to_vec());
        assert_eq!(f32_vec_from_le_bytes(&packed), small().packed_words);
        assert_eq!(load_q4_regions(&file, "other"), Err(BaseError::WrongName));
    }
}

#[test]
fn header_is_found_again() {
    let file = file_with(HEADER, &BLOB);
    assert_eq!(find_header_end(&file), Ok(16 + HEADER.len()));
    let (header, start) = read_base_header(&file).unwrap();
    assert_eq!(start, 16 + HEADER.len());
    assert_eq!(header["schema"].as_u64(), Some(1));
    let entry = first_tensor(&header);
    assert_eq!(entry.name.as_deref(), Some("W"));
    assert_eq!(entry.dtype.as_deref(), Some("base_q4"));
    assert_eq!(entry.group_size, Some(64));
    assert_eq!(entry.bias_offset, Some(10));
    assert_eq!(entry.regions("W"), Ok(plan_regions(&small())));
}

#[test]
fn broken_preambles() {
    let file = file_with(HEADER, &BLOB);
    assert_eq!(find_header_end(&[]), Err(BaseError::Truncated));
    assert_eq!(find_header_end(&file[..3]), Err(BaseError::Truncated));
    assert_eq!(find_header_end(b"BASF"), Err(BaseError::BadMagic));
    assert_eq!(find_header_end(&file[..7]), Err(BaseError::Truncated));
    let mut other = file.clone();
    other[4] = 2;
    assert_eq!(find_header_end(&other), Err(BaseError::UnsupportedVersion));
    assert_eq!(find_header_end(&other[..8]), Err(BaseError::UnsupportedVersion));
    assert_eq!(find_header_end(&file[..15]), Err(BaseError::Truncated));
    assert_eq!(find_header_end(&file[..15 + HEADER.len()]), Err(BaseError::Truncated));
    assert_eq!(find_header_end(&file[..16 + HEADER.len()]), Ok(16 + HEADER.len()));
    let mut huge = file.clone();
    for i in 8..16 {
        huge[i] = 0xff;
    }
    assert_eq!(find_header_end(&huge), Err(BaseError::Truncated));
    assert!(matches!(read_base_header(&file_with("{", &BLOB)), Err(BaseError::BadHeader)));
    assert!(matches!(read_base_header(&huge), Err(BaseError::Truncated)));
}

#[test]
fn broken_headers() {
    let with = |from: &str, to: &str| {
        load_q4_regions(&file_with(&HEADER.replace(from, to), &BLOB), "W")
    };
    assert!(with("x", "x").is_ok());
    assert_eq!(with("\"name\":\"W\"", "\"name\":7"), Err(BaseError::WrongName));
    assert_eq!(with("\"tensors\"", "\"tensor\""), Err(BaseError::WrongName));
    assert_eq!(with("base_q4", "base_q8"), Err(BaseError::WrongDtype));
    assert_eq!(with("\"group_size\":64", "\"group_size\":32"), Err(BaseError::WrongGroupSize));
    assert_eq!(with("\"group_size\":64", "\"group_size\":\"64\""), Err(BaseError::WrongGroupSize));
    assert_eq!(with("\"offset\":0", "\"offset\":-1"), Err(BaseError::MissingField));
    assert_eq!(with("\"bias_length\":2", "\"bias_length\":2.0"), Err(BaseError::MissingField));
    assert_eq!(with("\"bias_length\":2", "\"bias_length\":3"), Err(BaseError::OutOfBounds));
    assert_eq!(
        with("\"scale_offset\":8", "\"scale_offset\":18446744073709551615"),
        Err(BaseError::OutOfBounds)
    );
    assert_eq!(load_q4_regions(&file_with("[]", &BLOB), "W"), Err(BaseError::WrongName));
    assert_eq!(load_q4_regions(b"nothing at all", "W"), Err(BaseError::BadMagic));
}

#[test]
fn entries_are_checked_in_order() {
    let entry = || TensorEntry {
        name: Some("W".to_string()),
        dtype: Some("base_q4".to_string()),
        group_size: Some(64),
        offset: Some(1),
        length: Some(2),
        scale_offset: Some(3),
        scale_length: Some(4),
        bias_offset: Some(5),
        bias_length: Some(6),
    };
    let r = entry().regions("W").unwrap();
    assert_eq!((r.offset, r.length, r.scale_offset), (1, 2, 3));
    assert_eq!((r.scale_length, r.bias_offset, r.bias_length), (4, 5, 6));
    let mut e = entry();
    e.offset = None;
    assert_eq!(e.regions("W"), Err(BaseError::MissingField));
    e.group_size = None;
    assert_eq!(e.regions("W"), Err(BaseError::WrongGroupSize));
    e.dtype = None;
    assert_eq!(e.regions("W"), Err(BaseError::WrongDtype));
    assert_eq!(e.regions("V"), Err(BaseError::WrongName));
}

#[test]
fn regions_are_copied() {
    let r = Regions {
        offset: 1,
        length: 2,
        scale_offset: 0,
        scale_length: 0,
        bias_offset: 3,
        bias_length: 1,
    };
    let file = [0, 1, 2, 3, 4, 5, 6];
    assert_eq!(copy_regions(&file, 3, &r), Ok((vec![4, 5], vec![], vec![6])));
    assert_eq!(copy_regions(&file, 4, &r), Err(BaseError::OutOfBounds));
    assert_eq!(copy_regions(&file, usize::MAX, &r), Err(BaseError::OutOfBounds));
}

#[test]
fn tensors_are_loaded() {
    let file = safetensors_file("W", &[1.0, -2.0, 0.5]);
    assert_eq!(load_tensor(&file, "W", 12).unwrap(), &file[file.len() - 12..]);
    assert_eq!(load_tensor(&file, "x", 12), Err(LoadError::MissingTensor));
    assert_eq!(load_tensor(&file, "W", 8), Err(LoadError::WrongLength));
    assert_eq!(load_tensor(&file[1..], "W", 12), Err(LoadError::BadFile));
    let weights = load_fp32_w(&file, 1, 3, "W").unwrap();
    assert_eq!(weights, vec![0x3f80_0000, 0xc000_0000, 0x3f00_0000]);
    assert_eq!(load_fp32_w(&file, 2, 3, "W"), Err(LoadError::WrongLength));
    assert_eq!(load_fp32_w(&file, 1, 3, "V"), Err(LoadError::MissingTensor));
    assert_eq!(load_fp32_w(&[], 1, 3, "W"), Err(LoadError::BadFile));
}

#[test]
fn tensor_lengths_are_checked() {
    let data = [1u8, 2, 3];
    assert_eq!(checked_data(Some(&data), 3), Ok(&data[..]));
    assert_eq!(checked_data(Some(&data), 4), Err(LoadError::WrongLength));
    assert_eq!(checked_data(None, 0), Err(LoadError::MissingTensor));
}

#[test]
fn matrix_to_file() {
    let values: Vec<f32> = (0..128).map(|i| ((i % 64) / 4) as f32).collect();
    let input = safetensors_file("W_up", &values);
    let file = quantize_safetensors_to_base(&input, 2, 64, "W_up", &unit()).unwrap();
    let (packed, scale, bias) = load_q4_regions(&file, "W_up").unwrap();
    let row = [
        0x1111_0000, 0x3333_2222, 0x5555_4444, 0x7777_6666, 0x9999_8888, 0xbbbb_aaaa, 0xdddd_cccc,
        0xffff_eeee,
    ];
    assert_eq!(f32_vec_from_le_bytes(&packed), [row, row].concat());
    assert_eq!(scale, vec![0, 0x3c, 0, 0x3c]);
    assert_eq!(bias, vec![0; 4]);
    let (header, _) = read_base_header(&file).unwrap();
    assert_eq!(header["tensors"][0]["shape"][0].as_u64(), Some(2));
    assert_eq!(header["tensors"][0]["shape"][1].as_u64(), Some(64));
    assert_eq!(header["tensors"][0]["layout"].as_str(), Some("metal_lane_strided_q4"));

    let weights: Vec<u32> = values.iter().map(|v| v.to_bits()).collect();
    assert_eq!(weights_to_base(&weights, 2, 64, "W_up", &unit()), Ok(file));
}

#[test]
fn matrices_that_cannot_be_converted() {
    let input = safetensors_file("W", &[0.0; 32]);
    assert_eq!(
        quantize_safetensors_to_base(&input, 1, 32, "W", &unit()),
        Err(ConvertError::PartialGroup)
    );
    assert_eq!(
        quantize_safetensors_to_base(&input, 1, 64, "W", &unit()),
        Err(ConvertError::Load(LoadError::WrongLength))
    );
    assert_eq!(
        quantize_safetensors_to_base(&input, 1, 32, "V", &unit()),
        Err(ConvertError::Load(LoadError::MissingTensor))
    );
    assert_eq!(
        quantize_safetensors_to_base(b"", 1, 32, "W", &unit()),
        Err(ConvertError::Load(LoadError::BadFile))
    );
    assert_eq!(weights_to_base(&[0; 65], 1, 65, "W", &unit()), Err(ConvertError::PartialGroup));
}

/// A safetensors file with a given header text and no data.
fn bare_safetensors(header: &str) -> Vec<u8> {
    let mut file = (header.len() as u64).to_le_bytes().to_vec();
    file.extend_from_slice(header.as_bytes());
    file
}

#[test]
fn headers_that_reach_past_the_end() {
    let past = |text: &str, len: usize| {
        header_ends_past(&serde_json::from_str(text).unwrap(), len)
    };
    let two = "{\"a\":{\"data_offsets\":[0,8]},\"b\":{\"data_offsets\":[8,20]}}";
    assert!(past(two, 19));
    assert!(!past(two, 20));
    assert!(past("{\"a\":[\"F32\",[2],[0,8]]}", 7));
    assert!(!past("{\"a\":[\"F32\",[2],[0,8]]}", 8));
    assert!(!past("{\"__metadata__\":{\"format\":\"pt\"}}", 0));
    assert!(!past("{\"a\":{\"data_offsets\":7}}", 0));
    assert!(!past("{}", 0));
    assert!(!past("[1,2,3]", 0));
}

#[test]
fn files_that_overrun_are_rejected() {
    let huge = bare_safetensors(
        "{\"a\":{\"dtype\":\"U8\",\"shape\":[18446744073709551615],\
\"data_offsets\":[0,18446744073709551615]}}",
    );
    assert_eq!(load_tensor(&huge, "a", 0), Err(LoadError::BadFile));

    // Eight tensors whose sizes add up to eight less than two to the power of 64.
    let size: u64 = (1 << 61) - 1;
    let mut entries = Vec::new();
    for i in 0..8 {
        entries.push(format!(
            "\"t{i}\":{{\"dtype\":\"U8\",\"shape\":[{size}],\"data_offsets\":[{},{}]}}",
            i * size,
            (i + 1) * size
        ));
    }
    let wide = bare_safetensors(&format!("{{{}}}", entries.join(",")));
    assert_eq!(load_tensor(&wide, "t0", 0), Err(LoadError::BadFile));

    let empty = bare_safetensors("{}");
    assert_eq!(load_tensor(&empty, "a", 0), Err(LoadError::MissingTensor));
    let short = bare_safetensors("{\"a\":{\"dtype\":\"U8\",\"shape\":[4],\"data_offsets\":[0,4]}}");
    assert_eq!(load_tensor(&short, "a", 4), Err(LoadError::BadFile));
}

#[test]
fn several_tensors_in_one_file() {
    let first = [1u8, 0, 0, 0];
    let second = [2u8, 0, 0, 0, 3, 0, 0, 0];
    let views = vec![
        ("W_gate".to_string(), TensorView::new(Dtype::F32, vec![1], &first).unwrap()),
        ("W_up".to_string(), TensorView::new(Dtype::F32, vec![1, 2], &second).unwrap()),
    ];
    let file = safetensors::serialize(views, None).unwrap();
    assert_eq!(load_fp32_w(&file, 1, 1, "W_gate"), Ok(vec![1]));
    assert_eq!(load_fp32_w(&file, 1, 2, "W_up"), Ok(vec![2, 3]));
    assert_eq!(load_fp32_w(&file, 2, 1, "W_up"), Ok(vec![2, 3]));
}

fn wave(n: usize, step: f32) -> Vec<f32> {
    (0..n).map(|i| (i as f32 * step).sin() * 3.0).collect()
}

#[test]
fn converting_is_quantising_and_writing() {
    let values = wave(256, 0.17);
    let input = safetensors_file("W", &values);
    let file = quantize_safetensors_to_base(&input, 2, 128, "W", &unit()).unwrap();
    let q = quantize_q4(&load_fp32_w(&input, 2, 128, "W").unwrap(), &unit());
    assert_eq!(file, write_base_file(&q, 2, 128, "W"));
    assert_eq!(Ok(file.clone()), quantize_safetensors_to_base(&input, 2, 128, "W", &unit()));
    let (packed, scales, biases) = load_q4_regions(&file, "W").unwrap();
    assert_eq!((packed.len(), scales.len(), biases.len()), (128, 8, 8));
}

#[test]
fn other_tensors_have_no_influence() {
    let mut data = Vec::new();
    for v in wave(128, 0.29) {
        data.extend_from_slice(&v.to_le_bytes());
    }
    let gate = || TensorView::new(Dtype::F32, vec![1, 128], &data).unwrap();
    let rest = [7u8; 40];
    let alone = safetensors::serialize(vec![("W_gate".to_string(), gate())], None).unwrap();
    let beside = safetensors::serialize(
        vec![
            ("W_up".to_string(), TensorView::new(Dtype::F32, vec![10], &rest).unwrap()),
            ("W_gate".to_string(), gate()),
        ],
        None,
    )
    .unwrap();
    assert_ne!(alone, beside);
    let file = quantize_safetensors_to_base(&alone, 1, 128, "W_gate", &unit());
    assert!(file.is_ok());
    assert_eq!(file, quantize_safetensors_to_base(&beside, 1, 128, "W_gate", &unit()));
}

#[test]
fn equal_rows_have_equal_bytes() {
    let a = wave(3 * 128, 0.23);
    let mut b = wave(3 * 128, 0.71);
    b[128..256].copy_from_slice(&a[128..256]);
    let regions = |values: &[f32]| {
        let words: Vec<u32> = values.iter().map(|v| v.to_bits()).collect();
        load_q4_regions(&weights_to_base(&words, 3, 128, "W", &unit()).unwrap(), "W").unwrap()
    };
    let (x, y) = (regions(&a), regions(&b));
    assert_eq!(x.0[64..128], y.0[64..128]);
    assert_eq!(x.1[4..8], y.1[4..8]);
    assert_eq!(x.2[4..8], y.2[4..8]);
    assert_ne!(x.0[..64], y.0[..64]);
}

#[test]
fn headers_that_are_too_long() {
    let mut file = 100_000_001u64.to_le_bytes().to_vec();
    file.push(b'{');
    file.resize(8 + 100_000_000, b' ');
    file.push(b'}');
    assert_eq!(load_tensor(&file, "W", 0), Err(LoadError::BadFile));
}
